//! Multiplication and division by the generator `x` in GF(2^128), reduced by
//! x^128 + x^7 + x^2 + x + 1, on blocks read as little-endian bit strings
//! (bit `j` of byte `i` is the coefficient of x^(8i + j)).
use vstd::prelude::*;

use crate::Block;

verus! {

/// The low byte of the reduction polynomial, added back when x^128 overflows.
pub const GF_REDUCTION: u8 = 0x87;

/// The bit that leaves the block when it is multiplied by `x`.
pub open spec fn carry_of(t: Seq<u8>) -> bool {
    t[15] >> 7u8 == 1
}

/// `t * x` in GF(2^128).
pub open spec fn mul_x(t: Seq<u8>) -> Seq<u8> {
    Seq::new(
        16,
        |i: int|
            if i == 0 {
                ((t[0] << 1u8) ^ (if carry_of(t) { GF_REDUCTION } else { 0u8 })) as u8
            } else {
                ((t[i] << 1u8) | (t[i - 1] >> 7u8)) as u8
            },
    )
}

/// `t / x` in GF(2^128), where `carry` is the bit that multiplying the result
/// by `x` pushes out of the block.
pub open spec fn div_x(t: Seq<u8>, carry: bool) -> Seq<u8> {
    let u = t.update(0, (t[0] ^ (if carry { GF_REDUCTION } else { 0u8 })) as u8);
    Seq::new(
        16,
        |i: int|
            if i < 15 {
                ((u[i] >> 1u8) | (u[i + 1] << 7u8)) as u8
            } else {
                ((u[15] >> 1u8) | (if carry { 0x80u8 } else { 0u8 })) as u8
            },
    )
}

/// `t * x^n`: the tweak `n` blocks after `t`.
pub open spec fn mul_x_pow(t: Seq<u8>, n: nat) -> Seq<u8>
    decreases n,
{
    if n == 0 {
        t
    } else {
        mul_x(mul_x_pow(t, (n - 1) as nat))
    }
}

/// Advancing `a` steps and then `b` steps is advancing `a + b` steps.
pub proof fn lemma_mul_x_pow_add(t: Seq<u8>, a: nat, b: nat)
    ensures
        mul_x_pow(mul_x_pow(t, a), b) == mul_x_pow(t, a + b),
    decreases b,
{
    if b > 0 {
        lemma_mul_x_pow_add(t, a, (b - 1) as nat);
    }
}

proof fn lemma_carry_mask(b: u8)
    ensures
        (b >> 7u8) <= 1,
        (b >> 7u8) * GF_REDUCTION == (if b >> 7u8 == 1 { GF_REDUCTION } else { 0u8 }),
{
    assert((b >> 7u8) <= 1) by (bit_vector);
    assert((b >> 7u8) == 1 || (b >> 7u8) == 0) by (bit_vector);
}

/// Multiplies the tweak by `x` in place and returns the bit that overflowed.
pub fn gf_mul(iv: &mut Block) -> (carry: bool)
    ensures
        final(iv)@ == mul_x(old(iv)@),
        carry == carry_of(old(iv)@),
{
    let ghost t = iv@;
    let top: u8 = iv[15] >> 7u8;
    proof {
        lemma_carry_mask(t[15]);
    }
    let mut i: usize = 15;
    while i > 0
        invariant
            0 <= i <= 15,
            forall|j: int| 0 <= j <= i ==> iv@[j] == t[j],
            forall|j: int| i < j < 16 ==> iv@[j] == mul_x(t)[j],
        decreases i,
    {
        iv[i] = (iv[i] << 1u8) | (iv[i - 1] >> 7u8);
        i = i - 1;
    }
    iv[0] = (iv[0] << 1u8) ^ (top * GF_REDUCTION);
    assert(iv@ =~= mul_x(t));
    top == 1
}

/// Divides the tweak by `x` in place, given the bit that the multiplication
/// which produced it pushed out.
pub fn gf_reverse_mul(iv: &mut Block, carry: bool)
    ensures
        final(iv)@ == div_x(old(iv)@, carry),
{
    let ghost t = iv@;
    let c: u8 = carry as u8;
    assert(c * GF_REDUCTION == (if carry { GF_REDUCTION } else { 0u8 }));
    iv[0] = iv[0] ^ (c * GF_REDUCTION);
    let ghost u = iv@;
    let mut i: usize = 0;
    while i < 15
        invariant
            0 <= i <= 15,
            u == t.update(0, (t[0] ^ (if carry { GF_REDUCTION } else { 0u8 })) as u8),
            forall|j: int| i <= j < 16 ==> iv@[j] == u[j],
            forall|j: int| 0 <= j < i ==> iv@[j] == div_x(t, carry)[j],
        decreases 15 - i,
    {
        iv[i] = (iv[i] >> 1u8) | (iv[i + 1] << 7u8);
        i = i + 1;
    }
    iv[15] = (iv[15] >> 1u8) | (c << 7u8);
    assert(c << 7u8 == (if carry { 0x80u8 } else { 0u8 })) by {
        assert(c == 0 || c == 1);
        assert((0u8 << 7u8) == 0u8) by (bit_vector);
        assert((1u8 << 7u8) == 0x80u8) by (bit_vector);
    }
    assert(iv@ =~= div_x(t, carry));
}


proof fn lemma_byte_round_trip(lo: u8, b: u8, hi: u8)
    ensures
        ((((b << 1u8) | (lo >> 7u8)) >> 1u8) | (((hi << 1u8) | (b >> 7u8)) << 7u8))
            == b,
{
    assert(((((b << 1u8) | (lo >> 7u8)) >> 1u8) | (((hi << 1u8) | (b >> 7u8))
        << 7u8)) == b) by (bit_vector);
}

/// Dividing by `x` undoes multiplying by `x`, given the carry that the
/// multiplication returned.
pub proof fn lemma_div_x_mul_x(t: Seq<u8>)
    requires
        t.len() == 16,
    ensures
        div_x(mul_x(t), carry_of(t)) == t,
{
    let m = mul_x(t);
    let c = carry_of(t);
    let k: u8 = if c { GF_REDUCTION } else { 0u8 };
    let u = m.update(0, (m[0] ^ k) as u8);
    let b0 = t[0];
    assert(((b0 << 1u8) ^ k) ^ k == b0 << 1u8) by (bit_vector);
    assert(u[0] == (t[0] << 1u8)) ;
    assert forall|i: int| 0 <= i < 16 implies #[trigger] div_x(m, c)[i] == t[i] by {
        if i == 0 {
            let (b, hi) = (t[0], t[1]);
            assert(((((b << 1u8) >> 1u8) | (((hi << 1u8) | (b >> 7u8)) << 7u8))
                == b)) by (bit_vector);
        } else if i < 15 {
            lemma_byte_round_trip(t[i - 1], t[i], t[i + 1]);
        } else {
            let (lo, b) = (t[14], t[15]);
            assert((((b << 1u8) | (lo >> 7u8)) >> 1u8) | (if b >> 7u8 == 1 {
                0x80u8
            } else {
                0u8
            }) == b) by (bit_vector);
        }
    }
    assert(div_x(m, c) =~= t);
}

/// The element x^k of the field, for k < 128.
pub open spec fn monomial(k: nat) -> Seq<u8> {
    Seq::new(16, |i: int| if i == k / 8 { (1u8 << ((k % 8) as u8)) as u8 } else { 0u8 })
}

/// The element x^7 + x^2 + x + 1, that is x^128 reduced.
pub open spec fn x_pow_128() -> Seq<u8> {
    Seq::new(16, |i: int| if i == 0 { GF_REDUCTION } else { 0u8 })
}

proof fn lemma_bit_shift(s: u8)
    requires
        s < 8,
    ensures
        s < 7 ==> ((1u8 << s) << 1u8) == (1u8 << (s + 1) as u8),
        s < 7 ==> ((1u8 << s) >> 7u8) == 0u8,
        s == 7 ==> ((1u8 << s) << 1u8) == 0u8,
        s == 7 ==> ((1u8 << s) >> 7u8) == 1u8,
        (0u8 << 1u8) == 0u8,
        (0u8 >> 7u8) == 0u8,
        (1u8 << 0u8) == 1u8,
{
    assert(s < 7 ==> ((1u8 << s) << 1u8) == (1u8 << (s + 1) as u8)) by (bit_vector)
        requires s < 8;
    assert(s < 7 ==> ((1u8 << s) >> 7u8) == 0u8) by (bit_vector)
        requires s < 8;
    assert(s == 7 ==> ((1u8 << s) << 1u8) == 0u8) by (bit_vector);
    assert(s == 7 ==> ((1u8 << s) >> 7u8) == 1u8) by (bit_vector);
    assert((0u8 << 1u8) == 0u8) by (bit_vector);
    assert((0u8 >> 7u8) == 0u8) by (bit_vector);
    assert((1u8 << 0u8) == 1u8) by (bit_vector);
}

proof fn lemma_zero_identity(x: u8)
    ensures
        x | 0u8 == x,
        0u8 | x == x,
        x ^ 0u8 == x,
{
    assert(x | 0u8 == x) by (bit_vector);
    assert(0u8 | x == x) by (bit_vector);
    assert(x ^ 0u8 == x) by (bit_vector);
}

proof fn lemma_mul_x_monomial(k: nat)
    requires
        k < 128,
    ensures
        k < 127 ==> mul_x(monomial(k)) == monomial(k + 1),
        k == 127 ==> mul_x(monomial(k)) == x_pow_128(),
{
    let m = monomial(k);
    let n = monomial(k + 1);
    let q = k / 8;
    let s = (k % 8) as u8;
    lemma_bit_shift(s);
    assert(s < 7 ==> (k + 1) / 8 == q && (k + 1) % 8 == s + 1);
    assert(s == 7 ==> (k + 1) / 8 == q + 1 && (k + 1) % 8 == 0);
    assert(m[15] >> 7u8 == 1 <==> k == 127) by {
        if k != 127 {
            if q == 15 {
                assert(s < 7);
            }
        }
    }
    if k < 127 {
        assert forall|i: int| 0 <= i < 16 implies #[trigger] mul_x(m)[i] == n[i] by {
            lemma_zero_identity(m[i] << 1u8);
            if i > 0 {
                lemma_zero_identity(m[i - 1] >> 7u8);
                if i == q {
                    assert(m[i - 1] == 0u8);
                } else if i - 1 == q {
                    assert(m[i] == 0u8);
                } else {
                    assert(m[i] == 0u8 && m[i - 1] == 0u8);
                }
            } else {
                assert(k != 127);
            }
        }
        assert(mul_x(m) =~= n);
    } else {
        assert(q == 15 && s == 7);
        assert forall|i: int| 0 <= i < 16 implies #[trigger] mul_x(m)[i] == x_pow_128()[i] by {
            lemma_zero_identity(m[i] << 1u8);
            if i > 0 {
                lemma_zero_identity(m[i - 1] >> 7u8);
            }
            if 0 < i < 15 {
                assert(m[i] == 0u8 && m[i - 1] == 0u8);
            } else if i == 15 {
                assert(m[i - 1] == 0u8);
            } else {
                assert(m[0] == 0u8);
                assert((0u8 << 1u8) ^ GF_REDUCTION == GF_REDUCTION) by (bit_vector);
            }
        }
        assert(mul_x(m) =~= x_pow_128());
    }
}

proof fn lemma_mul_x_pow_one(k: nat)
    requires
        k < 128,
    ensures
        mul_x_pow(monomial(0), k) == monomial(k),
    decreases k,
{
    if k > 0 {
        lemma_mul_x_pow_one((k - 1) as nat);
        lemma_mul_x_monomial((k - 1) as nat);
    }
}

/// Multiplying `1` by `x` 128 times walks through every monomial x^k and
/// ends at x^128 mod (x^128 + x^7 + x^2 + x + 1) = x^7 + x^2 + x + 1.
pub proof fn lemma_mul_x_128_times_one()
    ensures
        forall|k: nat| k < 128 ==> #[trigger] mul_x_pow(monomial(0), k) == monomial(k),
        mul_x_pow(monomial(0), 128) == x_pow_128(),
{
    assert forall|k: nat| k < 128 implies #[trigger] mul_x_pow(monomial(0), k) == monomial(k) by {
        lemma_mul_x_pow_one(k);
    }
    lemma_mul_x_pow_one(127);
    lemma_mul_x_monomial(127);
}

} // verus!
