//! The XTS mode: the engine capability, the per-block and batched
//! processors, ciphertext stealing and the whole-buffer driver.
use vstd::prelude::*;

use crate::gf::{gf_mul, gf_reverse_mul, lemma_div_x_mul_x, lemma_mul_x_pow_add, mul_x, mul_x_pow};
use crate::{Block, Error, BLOCK_SIZE};

verus! {

/// Byte-wise exclusive or of two sequences of the same length.
pub open spec fn xor_seq(a: Seq<u8>, b: Seq<u8>) -> Seq<u8> {
    Seq::new(a.len(), |i: int| (a[i] ^ b[i]) as u8)
}

/// Block `i` (counted from 0) of `data`.
pub open spec fn block_at(data: Seq<u8>, i: int) -> Seq<u8> {
    data.subrange(16 * i, 16 * i + 16)
}

/// One block through the block function `f` under tweak `t`: xor, cipher, xor.
pub open spec fn xex(f: spec_fn(Seq<u8>) -> Seq<u8>, t: Seq<u8>, p: Seq<u8>) -> Seq<u8> {
    xor_seq(f(xor_seq(p, t)), t)
}

/// The first `n` blocks of `data`, block `i` processed under the tweak `t * x^i`.
pub open spec fn xts_full_blocks(
    f: spec_fn(Seq<u8>) -> Seq<u8>,
    t: Seq<u8>,
    data: Seq<u8>,
    n: nat,
) -> Seq<u8> {
    Seq::new(16 * n, |k: int| xex(f, mul_x_pow(t, (k / 16) as nat), block_at(data, k / 16))[k % 16])
}

/// The last full block and the short remainder after it, `t` being the tweak
/// of that full block, with the remainder's missing bytes stolen from the
/// processed full block. A decrypting engine takes the two tweaks in the
/// opposite order.
pub open spec fn steal_pair(
    f: spec_fn(Seq<u8>) -> Seq<u8>,
    decrypting: bool,
    t: Seq<u8>,
    region: Seq<u8>,
) -> Seq<u8> {
    let r = region.len() - 16;
    let first_tweak = if decrypting { mul_x(t) } else { t };
    let second_tweak = if decrypting { t } else { mul_x(t) };
    let cc = xex(f, first_tweak, region.subrange(0, 16));
    xex(f, second_tweak, region.subrange(16, region.len() as int) + cc.subrange(r, 16)) + cc.subrange(0, r)
}

/// The whole of `data` processed under the initial tweak `t`.
pub open spec fn xts_output(
    f: spec_fn(Seq<u8>) -> Seq<u8>,
    decrypting: bool,
    t: Seq<u8>,
    data: Seq<u8>,
) -> Seq<u8> {
    let m = data.len() / 16;
    if data.len() % 16 == 0 {
        xts_full_blocks(f, t, data, m)
    } else {
        xts_full_blocks(f, t, data, (m - 1) as nat) + steal_pair(
            f,
            decrypting,
            mul_x_pow(t, (m - 1) as nat),
            data.subrange(16 * (m - 1), data.len() as int),
        )
    }
}

/// The tweak left after processing `len` bytes from the initial tweak `t`.
pub open spec fn xts_final_tweak(decrypting: bool, t: Seq<u8>, len: nat) -> Seq<u8> {
    if len % 16 == 0 || decrypting {
        mul_x_pow(t, len / 16)
    } else {
        mul_x_pow(t, len / 16 + 1)
    }
}

/// Derives the initial tweak of a unit by encrypting its raw index `iv` once
/// with the tweak-key engine.
pub fn precompute_iv<E: Xts>(cipher: &E, iv: &Block) -> (r: Block)
    requires
        !E::decrypting(),
    ensures
        r@ == (cipher.cipher())(iv@),
{
    let mut output: Block = *iv;
    cipher.process_inplace(&mut output);
    output
}

/// The first `n` blocks of `buf` hold those of `data` processed from the tweak
/// `t`, and the bytes after them are still those of `data`.
pub open spec fn prefix_done(
    f: spec_fn(Seq<u8>) -> Seq<u8>,
    t: Seq<u8>,
    data: Seq<u8>,
    buf: Seq<u8>,
    n: nat,
) -> bool {
    &&& buf.len() == data.len()
    &&& 16 * n <= data.len()
    &&& forall|k: int| 0 <= k < 16 * n ==> #[trigger] buf[k] == xts_full_blocks(f, t, data, n)[k]
    &&& forall|k: int| 16 * n <= k < data.len() ==> #[trigger] buf[k] == data[k]
}

proof fn lemma_block_index(i: int, k: int)
    requires
        16 * i <= k < 16 * i + 16,
    ensures
        k / 16 == i,
        k % 16 == k - 16 * i,
{
}

proof fn lemma_prefix_done_step(
    f: spec_fn(Seq<u8>) -> Seq<u8>,
    t: Seq<u8>,
    data: Seq<u8>,
    buf: Seq<u8>,
    n: nat,
    b: Seq<u8>,
)
    requires
        prefix_done(f, t, data, buf, n),
        16 * n + 16 <= data.len(),
        b.len() == 16,
        b == xex(f, mul_x_pow(t, n), block_at(data, n as int)),
    ensures
        prefix_done(
            f,
            t,
            data,
            buf.subrange(0, 16 * n as int) + b + buf.subrange(16 * n as int + 16, buf.len() as int),
            n + 1,
        ),
{
    let nb = buf.subrange(0, 16 * n as int) + b + buf.subrange(16 * n as int + 16, buf.len() as int);
    assert forall|k: int| 0 <= k < 16 * (n + 1) implies #[trigger] nb[k] == xts_full_blocks(
        f,
        t,
        data,
        n + 1,
    )[k] by {
        if k < 16 * n {
            assert(nb[k] == buf[k]);
            assert(buf[k] == xts_full_blocks(f, t, data, n)[k]);
        } else {
            lemma_block_index(n as int, k);
        }
    }
    assert forall|k: int| 16 * (n + 1) <= k < data.len() implies #[trigger] nb[k] == data[k] by {
        assert(nb[k] == buf[k]);
    }
}

/// `a ^= b`, byte by byte.
pub fn xor_block(a: &mut Block, b: &Block)
    ensures
        final(a)@ == xor_seq(old(a)@, b@),
{
    let ghost a0 = a@;
    let mut i: usize = 0;
    while i < BLOCK_SIZE
        invariant
            0 <= i <= 16,
            forall|j: int| 0 <= j < i ==> a@[j] == (a0[j] ^ b@[j]) as u8,
            forall|j: int| i <= j < 16 ==> a@[j] == a0[j],
        decreases 16 - i,
    {
        a[i] = a[i] ^ b[i];
        i = i + 1;
    }
    assert(a@ =~= xor_seq(a0, b@));
}

/// The block of `buf` that starts at `off`.
pub fn load_block(buf: &[u8], off: usize) -> (b: Block)
    requires
        off + 16 <= buf.len(),
    ensures
        b@ == buf@.subrange(off as int, off + 16),
{
    let mut b: Block = [0u8; 16];
    let mut i: usize = 0;
    while i < BLOCK_SIZE
        invariant
            0 <= i <= 16,
            off + 16 <= buf.len(),
            forall|j: int| 0 <= j < i ==> b@[j] == buf@[off + j],
        decreases 16 - i,
    {
        b[i] = buf[off + i];
        i = i + 1;
    }
    assert(b@ =~= buf@.subrange(off as int, off + 16));
    b
}

/// Writes `b` into `buf` at `off`.
pub fn store_block(buf: &mut [u8], off: usize, b: &Block)
    requires
        off + 16 <= old(buf).len(),
    ensures
        final(buf)@ == old(buf)@.subrange(0, off as int) + b@ + old(buf)@.subrange(
            off + 16,
            old(buf)@.len() as int,
        ),
{
    let ghost b0 = buf@;
    let mut i: usize = 0;
    while i < BLOCK_SIZE
        invariant
            0 <= i <= 16,
            off + 16 <= buf.len(),
            buf@.len() == b0.len(),
            forall|j: int| 0 <= j < off ==> buf@[j] == b0[j],
            forall|j: int| off <= j < off + i ==> buf@[j] == b@[j - off],
            forall|j: int| off + i <= j < b0.len() ==> buf@[j] == b0[j],
        decreases 16 - i,
    {
        buf[off + i] = b[i];
        i = i + 1;
    }
    assert(buf@ =~= b0.subrange(0, off as int) + b@ + b0.subrange(off + 16, b0.len() as int));
}

/// The capability of a block-cipher engine, fixed to one direction, on which
/// the mode is built; the processors are provided on top of it.
pub trait Xts: Sized {
    /// The engine's keyed permutation of one block, in its direction.
    spec fn cipher(&self) -> spec_fn(Seq<u8>) -> Seq<u8>;

    /// Whether the engine decrypts.
    spec fn decrypting() -> bool;

    /// How many blocks the batched primitive takes at once.
    spec fn par_width() -> nat;

    /// Encrypts or decrypts a single block, without the mode.
    fn process_inplace(&self, block: &mut Block)
        ensures
            final(block)@ == (self.cipher())(old(block)@),
    ;

    /// Encrypts or decrypts a batch of blocks at once, without the mode.
    fn process_par_inplace(&self, blocks: &mut Vec<Block>)
        requires
            old(blocks)@.len() == Self::par_width(),
        ensures
            final(blocks)@.len() == old(blocks)@.len(),
            forall|i: int|
                0 <= i < old(blocks)@.len() ==> #[trigger] final(blocks)@[i]@ == (self.cipher())(
                    old(blocks)@[i]@,
                ),
    ;

    /// The number of blocks in a batch.
    fn par_blocks() -> (r: usize)
        ensures
            r == Self::par_width(),
            r >= 1,
    ;

    /// Whether the engine decrypts; the tweak schedule of stealing depends on it.
    fn is_decrypt() -> (r: bool)
        ensures
            r == Self::decrypting(),
    ;

    /// Processes one block in place under the tweak `iv` and advances `iv` by one step.
    fn process_block_inplace(&self, iv: &mut Block, block: &mut Block)
        ensures
            final(block)@ == xex(self.cipher(), old(iv)@, old(block)@),
            final(iv)@ == mul_x(old(iv)@),
    {
        xor_block(block, iv);
        self.process_inplace(block);
        xor_block(block, iv);
        gf_mul(iv);
    }

    /// Processes one block under the tweak `iv` into a new block and advances `iv`.
    fn process_block(&self, iv: &mut Block, block: &Block) -> (out: Block)
        ensures
            out@ == xex(self.cipher(), old(iv)@, block@),
            final(iv)@ == mul_x(old(iv)@),
    {
        let mut b: Block = *block;
        self.process_block_inplace(iv, &mut b);
        b
    }

    /// Processes a batch of blocks with one call of the batched primitive:
    /// lane `i` gets the tweak that sequential processing would give it, and
    /// `iv` is advanced once per lane.
    fn process_par_blocks_inplace(&self, iv: &mut Block, blocks: &mut Vec<Block>)
        requires
            old(blocks)@.len() == Self::par_width(),
        ensures
            final(blocks)@.len() == old(blocks)@.len(),
            forall|i: int|
                0 <= i < old(blocks)@.len() ==> #[trigger] final(blocks)@[i]@ == xex(
                    self.cipher(),
                    mul_x_pow(old(iv)@, i as nat),
                    old(blocks)@[i]@,
                ),
            final(iv)@ == mul_x_pow(old(iv)@, old(blocks)@.len()),
    {
        let ghost t0 = iv@;
        let ghost b0 = blocks@;
        let n = blocks.len();
        let mut ivs: Vec<Block> = Vec::new();
        let mut i: usize = 0;
        while i < n
            invariant
                0 <= i <= n,
                n == b0.len(),
                blocks@.len() == n,
                ivs@.len() == i,
                iv@ == mul_x_pow(t0, i as nat),
                forall|j: int| 0 <= j < i ==> #[trigger] ivs@[j]@ == mul_x_pow(t0, j as nat),
                forall|j: int|
                    0 <= j < i ==> #[trigger] blocks@[j]@ == xor_seq(b0[j]@, mul_x_pow(t0, j as nat)),
                forall|j: int| i <= j < n ==> #[trigger] blocks@[j] == b0[j],
            decreases n - i,
        {
            let mut b: Block = blocks[i];
            xor_block(&mut b, iv);
            blocks.set(i, b);
            ivs.push(*iv);
            gf_mul(iv);
            i = i + 1;
        }
        self.process_par_inplace(blocks);
        let ghost b1 = blocks@;
        let mut i: usize = 0;
        while i < n
            invariant
                0 <= i <= n,
                n == b0.len(),
                b1.len() == n,
                blocks@.len() == n,
                ivs@.len() == n,
                forall|j: int| 0 <= j < n ==> #[trigger] ivs@[j]@ == mul_x_pow(t0, j as nat),
                forall|j: int|
                    0 <= j < n ==> #[trigger] b1[j]@ == (self.cipher())(
                        xor_seq(b0[j]@, mul_x_pow(t0, j as nat)),
                    ),
                forall|j: int|
                    0 <= j < i ==> #[trigger] blocks@[j]@ == xex(
                        self.cipher(),
                        mul_x_pow(t0, j as nat),
                        b0[j]@,
                    ),
                forall|j: int| i <= j < n ==> #[trigger] blocks@[j] == b1[j],
            decreases n - i,
        {
            let mut b: Block = blocks[i];
            xor_block(&mut b, &ivs[i]);
            blocks.set(i, b);
            i = i + 1;
        }
    }

    /// Processes a batch of blocks into new blocks with one call of the
    /// batched primitive, advancing `iv` once per lane.
    fn process_par_blocks(&self, iv: &mut Block, blocks: &Vec<Block>) -> (out: Vec<Block>)
        requires
            blocks@.len() == Self::par_width(),
        ensures
            out@.len() == blocks@.len(),
            forall|i: int|
                0 <= i < blocks@.len() ==> #[trigger] out@[i]@ == xex(
                    self.cipher(),
                    mul_x_pow(old(iv)@, i as nat),
                    blocks@[i]@,
                ),
            final(iv)@ == mul_x_pow(old(iv)@, blocks@.len()),
    {
        let mut out: Vec<Block> = Vec::new();
        let mut i: usize = 0;
        while i < blocks.len()
            invariant
                0 <= i <= blocks@.len(),
                out@.len() == i,
                forall|j: int| 0 <= j < i ==> #[trigger] out@[j] == blocks@[j],
            decreases blocks@.len() - i,
        {
            out.push(blocks[i]);
            i = i + 1;
        }
        assert(out@ =~= blocks@);
        self.process_par_blocks_inplace(iv, &mut out);
        out
    }

    /// Processes a run of blocks one after the other, each under the tweak
    /// that follows the previous block's.
    fn process_tail_blocks_inplace(&self, iv: &mut Block, blocks: &mut Vec<Block>)
        ensures
            final(blocks)@.len() == old(blocks)@.len(),
            forall|i: int|
                0 <= i < old(blocks)@.len() ==> #[trigger] final(blocks)@[i]@ == xex(
                    self.cipher(),
                    mul_x_pow(old(iv)@, i as nat),
                    old(blocks)@[i]@,
                ),
            final(iv)@ == mul_x_pow(old(iv)@, old(blocks)@.len()),
    {
        let ghost t0 = iv@;
        let ghost b0 = blocks@;
        let n = blocks.len();
        let mut i: usize = 0;
        while i < n
            invariant
                0 <= i <= n,
                n == b0.len(),
                blocks@.len() == n,
                iv@ == mul_x_pow(t0, i as nat),
                forall|j: int|
                    0 <= j < i ==> #[trigger] blocks@[j]@ == xex(
                        self.cipher(),
                        mul_x_pow(t0, j as nat),
                        b0[j]@,
                    ),
                forall|j: int| i <= j < n ==> #[trigger] blocks@[j] == b0[j],
            decreases n - i,
        {
            let mut b: Block = blocks[i];
            self.process_block_inplace(iv, &mut b);
            blocks.set(i, b);
            i = i + 1;
        }
    }

    /// Processes a run of blocks one after the other into new blocks.
    fn process_tail_blocks(&self, iv: &mut Block, blocks: &Vec<Block>) -> (out: Vec<Block>)
        ensures
            out@.len() == blocks@.len(),
            forall|i: int|
                0 <= i < blocks@.len() ==> #[trigger] out@[i]@ == xex(
                    self.cipher(),
                    mul_x_pow(old(iv)@, i as nat),
                    blocks@[i]@,
                ),
            final(iv)@ == mul_x_pow(old(iv)@, blocks@.len()),
    {
        let ghost t0 = iv@;
        let mut out: Vec<Block> = Vec::new();
        let mut i: usize = 0;
        while i < blocks.len()
            invariant
                0 <= i <= blocks@.len(),
                out@.len() == i,
                iv@ == mul_x_pow(t0, i as nat),
                forall|j: int|
                    0 <= j < i ==> #[trigger] out@[j]@ == xex(
                        self.cipher(),
                        mul_x_pow(t0, j as nat),
                        blocks@[j]@,
                    ),
            decreases blocks@.len() - i,
        {
            let b = self.process_block(iv, &blocks[i]);
            out.push(b);
            i = i + 1;
        }
        out
    }
}

/// The whole-buffer driver and the ciphertext-stealing finisher.
pub trait XtsMode: Xts {
    /// Processes `buffer` in place from the tweak `iv`: its full blocks in
    /// order, in batches where a whole batch is left, and a short remainder by
    /// ciphertext stealing. A buffer shorter than one block is refused and left
    /// as it is.
    fn process_all_in_place(&self, iv: &mut Block, buffer: &mut [u8]) -> (r: Result<(), Error>)
        ensures
            final(buffer)@.len() == old(buffer)@.len(),
            old(buffer).len() < 16 ==> r == Err::<(), Error>(Error::InvalidLength),
            old(buffer).len() < 16 ==> final(buffer)@ == old(buffer)@,
            old(buffer).len() < 16 ==> final(iv)@ == old(iv)@,
            old(buffer).len() >= 16 ==> r is Ok,
            old(buffer).len() >= 16 ==> final(buffer)@ == xts_output(
                self.cipher(),
                Self::decrypting(),
                old(iv)@,
                old(buffer)@,
            ),
            old(buffer).len() >= 16 ==> final(iv)@ == xts_final_tweak(
                Self::decrypting(),
                old(iv)@,
                old(buffer)@.len(),
            ),
    {
        let len = buffer.len();
        if len < BLOCK_SIZE {
            return Err(Error::InvalidLength);
        }
        let ghost t0 = iv@;
        let ghost d0 = buffer@;
        let ghost f = self.cipher();
        let need_stealing = len % BLOCK_SIZE != 0;
        let full: usize = if need_stealing {
            len / BLOCK_SIZE - 1
        } else {
            len / BLOCK_SIZE
        };
        let width = Self::par_blocks();
        let mut i: usize = 0;
        while i < full
            invariant
                len == d0.len(),
                buffer@.len() == len,
                16 * full <= len,
                0 <= i <= full,
                f == self.cipher(),
                width == Self::par_width(),
                iv@ == mul_x_pow(t0, i as nat),
                prefix_done(f, t0, d0, buffer@, i as nat),
            decreases full - i,
        {
            if width > 1 && full - i >= width {
                let mut blocks: Vec<Block> = Vec::new();
                let mut j: usize = 0;
                while j < width
                    invariant
                        buffer@.len() == len,
                        len == d0.len(),
                        i + width <= full,
                        16 * full <= len,
                        0 <= j <= width,
                        blocks@.len() == j,
                        prefix_done(f, t0, d0, buffer@, i as nat),
                        forall|l: int|
                            0 <= l < j ==> #[trigger] blocks@[l]@ == block_at(d0, i + l),
                    decreases width - j,
                {
                    let b = load_block(buffer, (i + j) * BLOCK_SIZE);
                    assert forall|k: int| 0 <= k < 16 implies #[trigger] b@[k] == block_at(
                        d0,
                        i + j,
                    )[k] by {
                        assert(buffer@[16 * (i + j) + k] == d0[16 * (i + j) + k]);
                    }
                    assert(b@ =~= block_at(d0, i + j));
                    blocks.push(b);
                    j = j + 1;
                }
                let ghost tw = iv@;
                self.process_par_blocks_inplace(iv, &mut blocks);
                proof {
                    lemma_mul_x_pow_add(t0, i as nat, width as nat);
                }
                let mut j: usize = 0;
                while j < width
                    invariant
                        buffer@.len() == len,
                        len == d0.len(),
                        i + width <= full,
                        16 * full <= len,
                        0 <= j <= width,
                        blocks@.len() == width,
                        tw == mul_x_pow(t0, i as nat),
                        f == self.cipher(),
                        prefix_done(f, t0, d0, buffer@, (i + j) as nat),
                        forall|l: int|
                            0 <= l < width ==> #[trigger] blocks@[l]@ == xex(
                                f,
                                mul_x_pow(tw, l as nat),
                                block_at(d0, i + l),
                            ),
                    decreases width - j,
                {
                    proof {
                        lemma_mul_x_pow_add(t0, i as nat, j as nat);
                        lemma_prefix_done_step(
                            f,
                            t0,
                            d0,
                            buffer@,
                            (i + j) as nat,
                            blocks@[j as int]@,
                        );
                    }
                    store_block(buffer, (i + j) * BLOCK_SIZE, &blocks[j]);
                    j = j + 1;
                }
                i = i + width;
            } else {
                let mut b = load_block(buffer, i * BLOCK_SIZE);
                assert forall|k: int| 0 <= k < 16 implies #[trigger] b@[k] == block_at(d0, i as int)[k] by {
                    assert(buffer@[16 * i + k] == d0[16 * i + k]);
                }
                assert(b@ =~= block_at(d0, i as int));
                self.process_block_inplace(iv, &mut b);
                proof {
                    lemma_prefix_done_step(f, t0, d0, buffer@, i as nat, b@);
                }
                store_block(buffer, i * BLOCK_SIZE, &b);
                i = i + 1;
            }
        }
        if need_stealing {
            let ghost mid = buffer@;
            self.ciphertext_stealing(iv, buffer);
            assert(mul_x_pow(t0, (full + 1) as nat) == mul_x(mul_x_pow(t0, full as nat)));
            assert(mul_x_pow(t0, (full + 2) as nat) == mul_x(mul_x_pow(t0, (full + 1) as nat)));
            assert(mid.subrange(0, 16 * full) =~= xts_full_blocks(f, t0, d0, full as nat));
            assert(mid.subrange(16 * full, len as int) =~= d0.subrange(16 * full, len as int));
            assert(buffer@ =~= xts_output(f, Self::decrypting(), t0, d0));
        } else {
            assert(buffer@ =~= xts_output(f, Self::decrypting(), t0, d0));
        }
        Ok(())
    }

    /// Finishes a buffer whose length is not a multiple of the block size:
    /// its last full block and the short remainder after it are processed with
    /// ciphertext stealing, `iv` being the tweak of that full block.
    fn ciphertext_stealing(&self, iv: &mut Block, buffer: &mut [u8])
        requires
            old(buffer).len() > 16,
            old(buffer).len() % 16 != 0,
        ensures
            final(buffer)@.len() == old(buffer)@.len(),
            ({
                let len = old(buffer)@.len();
                let start = 16 * (len / 16 - 1);
                final(buffer)@ == old(buffer)@.subrange(0, start) + steal_pair(
                    self.cipher(),
                    Self::decrypting(),
                    old(iv)@,
                    old(buffer)@.subrange(start, len as int),
                )
            }),
            final(iv)@ == (if Self::decrypting() {
                mul_x(old(iv)@)
            } else {
                mul_x(mul_x(old(iv)@))
            }),
    {
        let ghost t0 = iv@;
        let ghost d0 = buffer@;
        let len = buffer.len();
        let rem = len % BLOCK_SIZE;
        let start = len - BLOCK_SIZE - rem;
        assert(start == 16 * (len / 16 - 1));
        let mut prev = load_block(buffer, start);
        if Self::is_decrypt() {
            // The full block takes the tweak after its own: look one step
            // ahead, then step back.
            let carry = gf_mul(iv);
            xor_block(&mut prev, iv);
            self.process_inplace(&mut prev);
            xor_block(&mut prev, iv);
            gf_reverse_mul(iv, carry);
            proof {
                lemma_div_x_mul_x(t0);
            }
        } else {
            self.process_block_inplace(iv, &mut prev);
        }
        let ghost cc = prev@;
        let mut last: Block = prev;
        let mut k: usize = 0;
        while k < rem
            invariant
                0 <= k <= rem < 16,
                start + 16 + rem == len,
                buffer@.len() == len,
                prev@ == cc,
                forall|j: int| 0 <= j < k ==> #[trigger] last@[j] == d0[start + 16 + j],
                forall|j: int| k <= j < 16 ==> #[trigger] last@[j] == cc[j],
                forall|j: int| 0 <= j < start + 16 ==> #[trigger] buffer@[j] == d0[j],
                forall|j: int| start + 16 <= j < start + 16 + k ==> #[trigger] buffer@[j] == cc[j - start - 16],
                forall|j: int| start + 16 + k <= j < len ==> #[trigger] buffer@[j] == d0[j],
            decreases rem - k,
        {
            last[k] = buffer[start + BLOCK_SIZE + k];
            buffer[start + BLOCK_SIZE + k] = prev[k];
            k = k + 1;
        }
        let ghost region = d0.subrange(start as int, len as int);
        assert(last@ =~= region.subrange(16, region.len() as int) + cc.subrange(rem as int, 16));
        self.process_block_inplace(iv, &mut last);
        let ghost tail = buffer@;
        store_block(buffer, start, &last);
        assert(tail.subrange(start + 16, len as int) =~= cc.subrange(0, rem as int));
        assert(tail.subrange(0, start as int) =~= d0.subrange(0, start as int));
        assert(region.subrange(0, 16) =~= d0.subrange(start as int, start + 16));
        assert(buffer@ =~= d0.subrange(0, start as int) + steal_pair(
            self.cipher(),
            Self::decrypting(),
            t0,
            region,
        ));
    }
}

} // verus!
