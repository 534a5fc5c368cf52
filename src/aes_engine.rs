//! XTS-AES-128 engines: AES-128 from the `aes` crate, driven through the
//! block-cipher traits of the `cipher` crate.
use vstd::prelude::*;

use cipher::generic_array::GenericArray;
use cipher::{BlockDecrypt, BlockEncrypt, KeyInit};

use crate::xts_core::{Xts, XtsMode};
use crate::Block;

verus! {

/// AES-128 encryption of `block` under `key`.
pub uninterp spec fn aes128_encrypt_of(key: Seq<u8>, block: Seq<u8>) -> Seq<u8>;

/// AES-128 decryption of `block` under `key`.
pub uninterp spec fn aes128_decrypt_of(key: Seq<u8>, block: Seq<u8>) -> Seq<u8>;

/// Relies on `KeyInit::new` and `BlockEncrypt::encrypt_block` of `aes::Aes128`:
/// the block is replaced by its AES-128 encryption, which decryption under the
/// same key undoes.
#[verifier::external_body]
fn aes128_encrypt_block(key: &Block, block: &mut Block)
    ensures
        final(block)@ == aes128_encrypt_of(key@, old(block)@),
        aes128_decrypt_of(key@, final(block)@) == old(block)@,
{
    let c = aes::Aes128::new(GenericArray::from_slice(&key[..]));
    c.encrypt_block(GenericArray::from_mut_slice(&mut block[..]));
}

/// Relies on `KeyInit::new` and `BlockDecrypt::decrypt_block` of `aes::Aes128`:
/// the block is replaced by its AES-128 decryption, which encryption under the
/// same key undoes.
#[verifier::external_body]
fn aes128_decrypt_block(key: &Block, block: &mut Block)
    ensures
        final(block)@ == aes128_decrypt_of(key@, old(block)@),
        aes128_encrypt_of(key@, final(block)@) == old(block)@,
{
    let c = aes::Aes128::new(GenericArray::from_slice(&key[..]));
    c.decrypt_block(GenericArray::from_mut_slice(&mut block[..]));
}

/// Relies on `KeyInit::new` and `BlockEncrypt::encrypt_blocks` of
/// `aes::Aes128`: each block is replaced by its AES-128 encryption.
#[verifier::external_body]
fn aes128_encrypt_blocks(key: &Block, blocks: &mut Vec<Block>)
    ensures
        final(blocks)@.len() == old(blocks)@.len(),
        forall|i: int|
            0 <= i < old(blocks)@.len() ==> #[trigger] final(blocks)@[i]@ == aes128_encrypt_of(
                key@,
                old(blocks)@[i]@,
            ),
{
    let c = aes::Aes128::new(GenericArray::from_slice(&key[..]));
    let mut lanes: Vec<cipher::Block<aes::Aes128>> =
        blocks.iter().map(|b| GenericArray::clone_from_slice(&b[..])).collect();
    c.encrypt_blocks(&mut lanes);
    for (b, l) in blocks.iter_mut().zip(lanes.iter()) {
        b.copy_from_slice(l);
    }
}

/// Relies on `KeyInit::new` and `BlockDecrypt::decrypt_blocks` of
/// `aes::Aes128`: each block is replaced by its AES-128 decryption.
#[verifier::external_body]
fn aes128_decrypt_blocks(key: &Block, blocks: &mut Vec<Block>)
    ensures
        final(blocks)@.len() == old(blocks)@.len(),
        forall|i: int|
            0 <= i < old(blocks)@.len() ==> #[trigger] final(blocks)@[i]@ == aes128_decrypt_of(
                key@,
                old(blocks)@[i]@,
            ),
{
    let c = aes::Aes128::new(GenericArray::from_slice(&key[..]));
    let mut lanes: Vec<cipher::Block<aes::Aes128>> =
        blocks.iter().map(|b| GenericArray::clone_from_slice(&b[..])).collect();
    c.decrypt_blocks(&mut lanes);
    for (b, l) in blocks.iter_mut().zip(lanes.iter()) {
        b.copy_from_slice(l);
    }
}

/// How many blocks the AES engines hand to the cipher in one batch.
pub const AES_PAR_BLOCKS: usize = 8;

/// An encrypting AES-128 engine; also the tweak-key engine of XTS-AES-128.
pub struct Aes128XtsEncryptor {
    pub key: Block,
}

/// A decrypting AES-128 engine.
pub struct Aes128XtsDecryptor {
    pub key: Block,
}

impl Aes128XtsEncryptor {
    /// An engine that encrypts under `key`.
    pub fn new(key: &Block) -> (r: Self)
        ensures
            r.key@ == key@,
    {
        Aes128XtsEncryptor { key: *key }
    }
}

impl Aes128XtsDecryptor {
    /// An engine that decrypts under `key`.
    pub fn new(key: &Block) -> (r: Self)
        ensures
            r.key@ == key@,
    {
        Aes128XtsDecryptor { key: *key }
    }
}

impl Xts for Aes128XtsEncryptor {
    open spec fn cipher(&self) -> spec_fn(Seq<u8>) -> Seq<u8> {
        |b: Seq<u8>| aes128_encrypt_of(self.key@, b)
    }

    open spec fn decrypting() -> bool {
        false
    }

    open spec fn par_width() -> nat {
        AES_PAR_BLOCKS as nat
    }

    fn process_inplace(&self, block: &mut Block) {
        aes128_encrypt_block(&self.key, block);
    }

    fn process_par_inplace(&self, blocks: &mut Vec<Block>) {
        aes128_encrypt_blocks(&self.key, blocks);
    }

    fn par_blocks() -> (r: usize) {
        AES_PAR_BLOCKS
    }

    fn is_decrypt() -> (r: bool) {
        false
    }
}

impl XtsMode for Aes128XtsEncryptor {}

impl Xts for Aes128XtsDecryptor {
    open spec fn cipher(&self) -> spec_fn(Seq<u8>) -> Seq<u8> {
        |b: Seq<u8>| aes128_decrypt_of(self.key@, b)
    }

    open spec fn decrypting() -> bool {
        true
    }

    open spec fn par_width() -> nat {
        AES_PAR_BLOCKS as nat
    }

    fn process_inplace(&self, block: &mut Block) {
        aes128_decrypt_block(&self.key, block);
    }

    fn process_par_inplace(&self, blocks: &mut Vec<Block>) {
        aes128_decrypt_blocks(&self.key, blocks);
    }

    fn par_blocks() -> (r: usize) {
        AES_PAR_BLOCKS
    }

    fn is_decrypt() -> (r: bool) {
        true
    }
}

impl XtsMode for Aes128XtsDecryptor {}

} // verus!
