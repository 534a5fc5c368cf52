//! Laws of the mode: decryption undoes encryption, batched processing equals
//! sequential processing, and the output is as long as the input.
use vstd::prelude::*;

use crate::gf::{lemma_mul_x_pow_add, mul_x, mul_x_pow};
use crate::xts_core::{block_at, steal_pair, xex, xor_seq, xts_full_blocks, xts_output, Xts};

verus! {

/// `f` maps every block to a block.
pub open spec fn keeps_blocks(f: spec_fn(Seq<u8>) -> Seq<u8>) -> bool {
    forall|b: Seq<u8>| b.len() == 16 ==> (#[trigger] f(b)).len() == 16
}

/// `dec` undoes `enc` on every block.
pub open spec fn inverts(dec: spec_fn(Seq<u8>) -> Seq<u8>, enc: spec_fn(Seq<u8>) -> Seq<u8>) -> bool {
    forall|b: Seq<u8>| b.len() == 16 ==> dec(#[trigger] enc(b)) == b
}

proof fn lemma_xor_twice(a: Seq<u8>, t: Seq<u8>)
    requires
        a.len() == t.len(),
    ensures
        xor_seq(xor_seq(a, t), t) == a,
{
    assert forall|i: int| 0 <= i < a.len() implies #[trigger] xor_seq(xor_seq(a, t), t)[i] == a[i] by {
        let (x, y) = (a[i], t[i]);
        assert((x ^ y) ^ y == x) by (bit_vector);
    }
    assert(xor_seq(xor_seq(a, t), t) =~= a);
}

proof fn lemma_xex_inverse(
    enc: spec_fn(Seq<u8>) -> Seq<u8>,
    dec: spec_fn(Seq<u8>) -> Seq<u8>,
    t: Seq<u8>,
    p: Seq<u8>,
)
    requires
        keeps_blocks(enc),
        inverts(dec, enc),
        t.len() == 16,
        p.len() == 16,
    ensures
        xex(enc, t, p).len() == 16,
        xex(dec, t, xex(enc, t, p)) == p,
{
    let q = xor_seq(p, t);
    assert(enc(q).len() == 16);
    lemma_xor_twice(enc(q), t);
    lemma_xor_twice(p, t);
}

proof fn lemma_full_blocks_len(f: spec_fn(Seq<u8>) -> Seq<u8>, t: Seq<u8>, data: Seq<u8>, n: nat)
    requires
        keeps_blocks(f),
        t.len() == 16,
        16 * n <= data.len(),
    ensures
        forall|i: int|
            0 <= i < n ==> #[trigger] block_at(xts_full_blocks(f, t, data, n), i) == xex(
                f,
                mul_x_pow(t, i as nat),
                block_at(data, i),
            ),
{
    assert forall|i: int| 0 <= i < n implies #[trigger] block_at(xts_full_blocks(f, t, data, n), i)
        == xex(f, mul_x_pow(t, i as nat), block_at(data, i)) by {
        lemma_mul_x_pow_len(t, i as nat);
        assert(xor_seq(block_at(data, i), mul_x_pow(t, i as nat)).len() == 16);
        assert forall|j: int| 0 <= j < 16 implies #[trigger] block_at(
            xts_full_blocks(f, t, data, n),
            i,
        )[j] == xex(f, mul_x_pow(t, i as nat), block_at(data, i))[j] by {
            assert((16 * i + j) / 16 == i && (16 * i + j) % 16 == j);
        }
        assert(block_at(xts_full_blocks(f, t, data, n), i) =~= xex(
            f,
            mul_x_pow(t, i as nat),
            block_at(data, i),
        ));
    }
}

proof fn lemma_mul_x_pow_len(t: Seq<u8>, n: nat)
    ensures
        mul_x_pow(t, n).len() == (if n == 0 { t.len() } else { 16 }),
    decreases n,
{
    if n > 0 {
        lemma_mul_x_pow_len(t, (n - 1) as nat);
    }
}

proof fn lemma_full_blocks_round_trip(
    enc: spec_fn(Seq<u8>) -> Seq<u8>,
    dec: spec_fn(Seq<u8>) -> Seq<u8>,
    t: Seq<u8>,
    data: Seq<u8>,
    n: nat,
)
    requires
        keeps_blocks(enc),
        inverts(dec, enc),
        t.len() == 16,
        16 * n <= data.len(),
    ensures
        xts_full_blocks(enc, t, data, n).len() == 16 * n,
        xts_full_blocks(dec, t, xts_full_blocks(enc, t, data, n), n) == data.subrange(
            0,
            16 * n as int,
        ),
{
    let c = xts_full_blocks(enc, t, data, n);
    lemma_full_blocks_len(enc, t, data, n);
    assert forall|k: int| 0 <= k < 16 * n implies #[trigger] xts_full_blocks(dec, t, c, n)[k]
        == data[k] by {
        let i = k / 16;
        lemma_mul_x_pow_len(t, i as nat);
        lemma_xex_inverse(enc, dec, mul_x_pow(t, i as nat), block_at(data, i));
        assert(block_at(c, i) == xex(enc, mul_x_pow(t, i as nat), block_at(data, i)));
    }
    assert(xts_full_blocks(dec, t, c, n) =~= data.subrange(0, 16 * n as int));
}

proof fn lemma_steal_pair_round_trip(
    enc: spec_fn(Seq<u8>) -> Seq<u8>,
    dec: spec_fn(Seq<u8>) -> Seq<u8>,
    t: Seq<u8>,
    region: Seq<u8>,
)
    requires
        keeps_blocks(enc),
        inverts(dec, enc),
        t.len() == 16,
        16 < region.len() < 32,
    ensures
        steal_pair(enc, false, t, region).len() == region.len(),
        steal_pair(dec, true, t, steal_pair(enc, false, t, region)) == region,
{
    let r = region.len() - 16;
    let t2 = mul_x(t);
    let cc = xex(enc, t, region.subrange(0, 16));
    let second = region.subrange(16, region.len() as int) + cc.subrange(r, 16);
    lemma_xex_inverse(enc, dec, t, region.subrange(0, 16));
    lemma_xex_inverse(enc, dec, t2, second);
    let c = steal_pair(enc, false, t, region);
    assert(c == xex(enc, t2, second) + cc.subrange(0, r));
    assert(c.subrange(0, 16) =~= xex(enc, t2, second));
    let pp = xex(dec, t2, c.subrange(0, 16));
    assert(pp == second);
    assert(c.subrange(16, c.len() as int) + pp.subrange(r, 16) =~= cc);
    assert(pp.subrange(0, r) =~= region.subrange(16, region.len() as int));
    assert(steal_pair(dec, true, t, c) =~= region);
}

/// Decryption undoes encryption: a buffer of at least one block processed by
/// an encrypting engine and then by a decrypting engine whose block function
/// undoes the first one's, from the same initial tweak, comes back unchanged.
pub proof fn lemma_round_trip<E: Xts, D: Xts>(encryptor: &E, decryptor: &D, t: Seq<u8>, data: Seq<u8>)
    requires
        !E::decrypting(),
        D::decrypting(),
        keeps_blocks(encryptor.cipher()),
        inverts(decryptor.cipher(), encryptor.cipher()),
        t.len() == 16,
        data.len() >= 16,
    ensures
        xts_output(
            decryptor.cipher(),
            D::decrypting(),
            t,
            xts_output(encryptor.cipher(), E::decrypting(), t, data),
        ) == data,
{
    let enc = encryptor.cipher();
    let dec = decryptor.cipher();
    let m = data.len() / 16;
    let c = xts_output(enc, false, t, data);
    if data.len() % 16 == 0 {
        lemma_full_blocks_round_trip(enc, dec, t, data, m);
        assert(data.subrange(0, 16 * m as int) =~= data);
    } else {
        let n = (m - 1) as nat;
        let head = xts_full_blocks(enc, t, data, n);
        let tw = mul_x_pow(t, n);
        let region = data.subrange(16 * n as int, data.len() as int);
        lemma_full_blocks_round_trip(enc, dec, t, data, n);
        lemma_mul_x_pow_len(t, n);
        lemma_steal_pair_round_trip(enc, dec, tw, region);
        assert(c.len() == data.len());
        assert(c.subrange(16 * n as int, c.len() as int) =~= steal_pair(enc, false, tw, region));
        assert forall|k: int| 0 <= k < 16 * n implies #[trigger] xts_full_blocks(dec, t, c, n)[k]
            == xts_full_blocks(dec, t, head, n)[k] by {
            assert(block_at(c, k / 16) =~= block_at(head, k / 16));
        }
        assert(xts_full_blocks(dec, t, c, n) =~= xts_full_blocks(dec, t, head, n));
        assert(xts_output(dec, true, t, c) =~= data);
    }
}

/// The processed buffer is exactly as long as the input, for block functions
/// that map blocks to blocks.
pub proof fn lemma_output_len(
    f: spec_fn(Seq<u8>) -> Seq<u8>,
    decrypting: bool,
    t: Seq<u8>,
    data: Seq<u8>,
)
    requires
        keeps_blocks(f),
        t.len() == 16,
        data.len() >= 16,
    ensures
        xts_output(f, decrypting, t, data).len() == data.len(),
{
    let m = data.len() / 16;
    if data.len() % 16 != 0 {
        let tw = mul_x_pow(t, (m - 1) as nat);
        lemma_mul_x_pow_len(t, (m - 1) as nat);
        let region = data.subrange(16 * (m - 1), data.len() as int);
        let ft = if decrypting { mul_x(tw) } else { tw };
        let st = if decrypting { tw } else { mul_x(tw) };
        let cc = xex(f, ft, region.subrange(0, 16));
        assert(f(xor_seq(region.subrange(0, 16), ft)).len() == 16);
        let r = region.len() - 16;
        let second = region.subrange(16, region.len() as int) + cc.subrange(r, 16);
        assert(f(xor_seq(second, st)).len() == 16);
    }
}

/// The tweak at the start of batch `g` when every batch of `w` blocks advances
/// the tweak by `w` steps.
pub open spec fn group_tweak(t: Seq<u8>, w: nat, g: nat) -> Seq<u8>
    decreases g,
{
    if g == 0 {
        t
    } else {
        mul_x_pow(group_tweak(t, w, (g - 1) as nat), w)
    }
}

/// The first `n` blocks of `data` processed batch by batch, `w` blocks to a
/// batch: block `i` is lane `i % w` of batch `i / w`.
pub open spec fn xts_grouped_blocks(
    f: spec_fn(Seq<u8>) -> Seq<u8>,
    t: Seq<u8>,
    data: Seq<u8>,
    w: nat,
    n: nat,
) -> Seq<u8> {
    Seq::new(
        16 * n,
        |k: int|
            xex(
                f,
                mul_x_pow(group_tweak(t, w, ((k / 16) / (w as int)) as nat), ((k / 16) % (w as int)) as nat),
                block_at(data, k / 16),
            )[k % 16],
    )
}

proof fn lemma_group_tweak(t: Seq<u8>, w: nat, g: nat)
    ensures
        group_tweak(t, w, g) == mul_x_pow(t, w * g),
    decreases g,
{
    if g > 0 {
        let g1 = (g - 1) as nat;
        lemma_group_tweak(t, w, g1);
        lemma_mul_x_pow_add(t, w * g1, w);
        assert(w * g1 + w == w * g) by (nonlinear_arith)
            requires
                g1 + 1 == g,
        ;
        assert(mul_x_pow(t, w * g) == mul_x_pow(mul_x_pow(t, w * g1), w));
    } else {
        assert(w * g == 0) by (nonlinear_arith)
            requires
                g == 0,
        ;
    }
}

/// Batched processing is sequential processing: processing blocks in batches
/// of `w`, each lane under the tweak of its place in the batch and each batch
/// advancing the tweak by `w` steps, gives the same blocks as processing them
/// one by one, and the tweak after `g` batches is the one after `w * g` blocks.
pub proof fn lemma_batches_match_sequence(
    f: spec_fn(Seq<u8>) -> Seq<u8>,
    t: Seq<u8>,
    data: Seq<u8>,
    w: nat,
    n: nat,
)
    requires
        w >= 1,
    ensures
        xts_grouped_blocks(f, t, data, w, n) == xts_full_blocks(f, t, data, n),
        forall|g: nat| #[trigger] group_tweak(t, w, g) == mul_x_pow(t, w * g),
{
    assert forall|g: nat| #[trigger] group_tweak(t, w, g) == mul_x_pow(t, w * g) by {
        lemma_group_tweak(t, w, g);
    }
    assert forall|k: int| 0 <= k < 16 * n implies #[trigger] xts_grouped_blocks(f, t, data, w, n)[k]
        == xts_full_blocks(f, t, data, n)[k] by {
        let i = k / 16;
        let q = i / (w as int);
        let r = i % (w as int);
        assert(i == w * q + r && 0 <= r < w && q >= 0) by {
            vstd::arithmetic::div_mod::lemma_fundamental_div_mod(i, w as int);
            vstd::arithmetic::div_mod::lemma_mod_bound(i, w as int);
            vstd::arithmetic::div_mod::lemma_div_pos_is_pos(i, w as int);
        }
        lemma_group_tweak(t, w, q as nat);
        lemma_mul_x_pow_add(t, w * q as nat, r as nat);
    }
    assert(xts_grouped_blocks(f, t, data, w, n) =~= xts_full_blocks(f, t, data, n));
}

} // verus!
