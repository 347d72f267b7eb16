//! Powers of two, single bits and bit lengths of 128-bit numbers.

use vstd::arithmetic::power2::{
    lemma2_to64, lemma_pow2_adds, lemma_pow2_pos, lemma_pow2_unfold, pow2,
};
use vstd::arithmetic::div_mod::{
    lemma_fundamental_div_mod, lemma_hoist_over_denominator, lemma_mod_bound, lemma_mod_breakdown,
    lemma_mod_mod,
};
use vstd::arithmetic::mul::{
    lemma_mul_inequality, lemma_mul_is_commutative, lemma_mul_is_distributive_add_other_way,
};
use vstd::bits::lemma_u128_shr_is_div;
use vstd::prelude::*;

verus! {

/// Whether bit `k` of `x` is set.
pub open spec fn bit_of(x: nat, k: nat) -> bool {
    (x / pow2(k)) % 2 == 1
}

/// The number of bits needed to write `x`: 0 for 0, else the position of the
/// highest set bit plus one.
pub open spec fn bit_length(x: nat) -> nat
    decreases x,
{
    if x == 0 {
        0
    } else {
        1 + bit_length(x / 2)
    }
}

/// `x` lies below the power of two named by its bit length, and not below the
/// one before it.
pub proof fn lemma_bit_length_bounds(x: nat)
    ensures
        x < pow2(bit_length(x)),
        x > 0 ==> pow2((bit_length(x) - 1) as nat) <= x,
    decreases x,
{
    if x == 0 {
        lemma_pow2_pos(0);
    } else {
        lemma_bit_length_bounds(x / 2);
        lemma_pow2_unfold(bit_length(x));
        if x / 2 > 0 {
            lemma_pow2_unfold((bit_length(x) - 1) as nat);
        } else {
            lemma2_to64();
        }
    }
}

/// A number below the `m`-th power of two has at most `m` bits.
pub proof fn lemma_bit_length_le(x: nat, m: nat)
    requires
        x < pow2(m),
    ensures
        bit_length(x) <= m,
    decreases x,
{
    if x > 0 {
        if m == 0 {
            lemma2_to64();
        } else {
            lemma_pow2_unfold(m);
            lemma_bit_length_le(x / 2, (m - 1) as nat);
        }
    }
}

/// The 128th power of two is one more than the largest `u128`.
pub proof fn lemma_pow2_128()
    ensures
        pow2(128) == u128::MAX + 1,
{
    lemma2_to64();
    lemma_pow2_adds(64, 64);
}

/// Shifting one to the left by `k` gives the `k`-th power of two.
pub proof fn lemma_one_shl(k: nat)
    requires
        k < 128,
    ensures
        (1u128 << k) == pow2(k),
    decreases k,
{
    if k == 0 {
        assert(1u128 << 0u128 == 1u128) by (bit_vector);
        lemma2_to64();
    } else {
        let j = (k - 1) as u128;
        let kk = k as u128;
        lemma_one_shl((k - 1) as nat);
        assert((1u128 << kk) == 2 * (1u128 << j)) by (bit_vector)
            requires
                0 < kk < 128,
                j == kk - 1,
        ;
        lemma_pow2_unfold(k);
    }
}

/// The `k`-th power of two.
pub fn pow2_u128(k: usize) -> (w: u128)
    requires
        k < 128,
    ensures
        w == pow2(k as nat),
{
    proof {
        lemma_one_shl(k as nat);
    }
    1u128 << k
}

/// Whether bit `k` of `x` is set.
pub fn bit_at(x: u128, k: usize) -> (b: bool)
    requires
        k < 128,
    ensures
        b == bit_of(x as nat, k as nat),
{
    let w: u128 = 1u128 << k;
    proof {
        let kk = k as u128;
        assert(((x & (1u128 << kk)) != 0) == (((x >> kk) & 1) == 1)) by (bit_vector)
            requires
                kk < 128,
        ;
        let y: u128 = x >> kk;
        assert((y & 1) == y % 2) by (bit_vector);
        lemma_u128_shr_is_div(x, kk);
    }
    (x & w) != 0
}

/// The bit length of `x`.
pub fn bit_count(x: u128) -> (len: usize)
    ensures
        len == bit_length(x as nat),
        len <= 128,
{
    let mut rest: u128 = x;
    let mut len: usize = 0;
    proof {
        lemma_pow2_128();
        lemma_bit_length_le(x as nat, 128);
    }
    while rest != 0
        invariant
            len + bit_length(rest as nat) == bit_length(x as nat),
            bit_length(x as nat) <= 128,
        decreases rest,
    {
        rest = rest / 2;
        len = len + 1;
    }
    len
}

/// The low `k + 1` bits of `x` are its low `k` bits and bit `k`.
pub proof fn lemma_low_bits_step(x: nat, k: nat)
    ensures
        x % pow2(k + 1) == x % pow2(k) + if bit_of(x, k) {
            pow2(k)
        } else {
            0
        },
{
    let w = pow2(k) as int;
    lemma_pow2_pos(k);
    lemma_pow2_unfold(k + 1);
    lemma_mod_breakdown(x as int, w, 2);
    assert(w * 2 == pow2(k + 1));
    let b = (x as int / w) % 2;
    assert(w * b == if b == 1 {
        w
    } else {
        0
    }) by (nonlinear_arith)
        requires
            b == 0 || b == 1,
    ;
}

/// Bit `k` of a number is decided by its low `k + 1` bits.
pub proof fn lemma_bit_of_low_bits(x: nat, y: nat, k: nat)
    requires
        x % pow2(k + 1) == y % pow2(k + 1),
    ensures
        bit_of(x, k) == bit_of(y, k),
{
    let w = pow2(k) as int;
    lemma_pow2_pos(k);
    lemma_pow2_unfold(k + 1);
    lemma_low_bits_step(x, k);
    lemma_low_bits_step(y, k);
    lemma_mod_mod(x as int, w, 2);
    lemma_mod_mod(y as int, w, 2);
    assert(w * 2 == pow2(k + 1));
}

/// Adding `t` times the `k`-th power of two flips bit `k` where `t` is odd and
/// leaves it where `t` is even.
pub proof fn lemma_bit_of_sum(x: nat, t: nat, k: nat)
    ensures
        bit_of(x + t * pow2(k), k) == (bit_of(x, k) != (t % 2 == 1)),
{
    lemma_pow2_pos(k);
    lemma_hoist_over_denominator(x as int, t as int, pow2(k));
}

/// The largest value that fits: `x` itself, or the largest `u128` where `x`
/// exceeds it.
pub open spec fn clamp(x: nat) -> nat {
    if x > u128::MAX {
        u128::MAX as nat
    } else {
        x
    }
}

/// Shifting `x` to the left by `k` multiplies it by the `k`-th power of two
/// as long as no set bit is shifted out.
pub proof fn lemma_shl_is_mul(x: u128, k: nat)
    requires
        k < 128,
        x <= (u128::MAX >> k),
    ensures
        (x << k) == x * pow2(k),
    decreases k,
{
    if k == 0 {
        assert(x << 0u128 == x) by (bit_vector);
        lemma2_to64();
    } else {
        let j = (k - 1) as u128;
        let kk = k as u128;
        assert(x <= (u128::MAX >> j) && (x << kk) == 2 * (x << j)) by (bit_vector)
            requires
                0 < kk < 128,
                j == kk - 1,
                x <= (u128::MAX >> kk),
        ;
        lemma_shl_is_mul(x, (k - 1) as nat);
        lemma_pow2_unfold(k);
        assert(2 * (x * pow2((k - 1) as nat)) == x * (2 * pow2((k - 1) as nat))) by (nonlinear_arith);
    }
}

/// `x` times the `k`-th power of two, or the largest `u128` where that is too
/// large.
pub fn times_pow2(x: u128, k: usize) -> (r: u128)
    requires
        k < 128,
    ensures
        r == clamp(x as nat * pow2(k as nat)),
{
    let room: u128 = u128::MAX >> k;
    proof {
        let w = pow2(k as nat) as int;
        lemma_pow2_pos(k as nat);
        lemma_u128_shr_is_div(u128::MAX, k as u128);
        lemma_fundamental_div_mod(u128::MAX as int, w);
        lemma_mod_bound(u128::MAX as int, w);
        if x <= room {
            lemma_shl_is_mul(x, k as nat);
            lemma_mul_inequality(x as int, room as int, w);
            lemma_mul_is_commutative(room as int, w);
        } else {
            lemma_mul_inequality(room as int + 1, x as int, w);
            lemma_mul_is_distributive_add_other_way(w, room as int, 1);
            lemma_mul_is_commutative(room as int, w);
        }
    }
    if x > room {
        u128::MAX
    } else {
        x << k
    }
}

} // verus!
