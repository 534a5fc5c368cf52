//! XTS, the tweakable block-cipher mode for storage units, with ciphertext
//! stealing for units whose length is not a multiple of the block size.
pub mod aes_engine;
pub mod gf;
pub mod lemmas;
pub mod xts_core;

use vstd::prelude::*;

verus! {

/// Length in bytes of one cipher block and of the tweak.
pub const BLOCK_SIZE: usize = 16;

/// One cipher block, also used for the tweak.
pub type Block = [u8; 16];

/// Why a buffer could not be processed.
#[derive(Debug, Clone, Copy, PartialEq, Eq, Structural)]
pub enum Error {
    /// The buffer is shorter than one block.
    InvalidLength,
}

} // verus!
