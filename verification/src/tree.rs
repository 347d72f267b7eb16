//! The search tree: which candidate pairs the search visits, in which order,
//! and what it returns.
//!
//! A node of the tree is a pair `(p, q)` of partial factors together with the
//! level `k` of the next bit to decide. All of this is stated over unbounded
//! naturals; the executable search follows it on 128-bit numbers.

use crate::bits::{
    bit_length, bit_of, lemma_bit_length_bounds, lemma_bit_of_low_bits, lemma_bit_of_sum,
    lemma_low_bits_step,
};
use vstd::arithmetic::div_mod::{
    lemma_mod_add_multiples_vanish, lemma_mod_bound, lemma_mod_decreases, lemma_mod_mod,
    lemma_mul_mod_noop_general, lemma_small_mod,
};
use vstd::arithmetic::mul::{lemma_mul_inequality, lemma_mul_is_commutative};
use vstd::arithmetic::power2::{
    lemma_pow2_pos, lemma_pow2_strictly_increases, lemma_pow2_unfold, pow2,
};
use vstd::prelude::*;

verus! {

/// `(p, q)` is a factorization of `n` in which neither factor is 1.
pub open spec fn is_match(n: nat, p: nat, q: nat) -> bool {
    p * q == n && p != 1 && q != 1
}

/// Nothing below `(p, q)` at level `k` can still match: the product already
/// exceeds `n`, or every bit position of `n` has been assigned.
pub open spec fn exhausted(n: nat, k: nat, p: nat, q: nat) -> bool {
    p * q > n || k > bit_length(n)
}

/// Bit `k` of the partial product is already the one that `n` has there.
pub open spec fn agrees(n: nat, k: nat, p: nat, q: nat) -> bool {
    bit_of(n, k) == bit_of(p * q, k)
}

/// Whether the given attempt (0 for the first, 1 for the second) at level `k`
/// is the one that raises bit `k` of `p`. Odd levels raise it first.
pub open spec fn raises_p(k: nat, attempt: nat) -> bool {
    (k % 2 == 1) == (attempt == 0)
}

/// The pair derived from `(p, q)` at level `k`, by the attempt that raises
/// bit `k` of `p` or by the one that does not.
///
/// Where bit `k` agrees, either both factors get the bit or neither does;
/// where it disagrees, exactly one of them gets it.
pub open spec fn grow(n: nat, k: nat, p: nat, q: nat, raise: bool) -> (nat, nat) {
    if raise {
        if agrees(n, k, p, q) {
            (p + pow2(k), q + pow2(k))
        } else {
            (p + pow2(k), q)
        }
    } else {
        if agrees(n, k, p, q) {
            (p, q)
        } else {
            (p, q + pow2(k))
        }
    }
}

/// The pair that the given attempt at level `k` derives from `(p, q)`.
pub open spec fn child(n: nat, k: nat, p: nat, q: nat, attempt: nat) -> (nat, nat) {
    grow(n, k, p, q, raises_p(k, attempt))
}

/// The first of two results that is not empty.
pub open spec fn first_of(a: Option<(nat, nat)>, b: Option<(nat, nat)>) -> Option<(nat, nat)> {
    match a {
        Some(r) => Some(r),
        None => b,
    }
}

/// What a depth-first search below `(p, q)` finds, `k` being the next level to
/// decide: the first match in the order in which the attempts are made.
pub open spec fn explore(n: nat, k: nat, p: nat, q: nat) -> Option<(nat, nat)>
    decreases bit_length(n) + 1 - k,
{
    if is_match(n, p, q) {
        Some((p, q))
    } else if exhausted(n, k, p, q) {
        None
    } else {
        let a = child(n, k, p, q, 0);
        let b = child(n, k, p, q, 1);
        first_of(explore(n, k + 1, a.0, a.1), explore(n, k + 1, b.0, b.1))
    }
}

/// The level whose pair a seed fixes: a seed gives the low eight bits.
pub open spec fn seed_level() -> nat {
    7
}

/// Whether the two values are taken as a seed: both must exceed 1.
pub open spec fn is_seed(p_seed: nat, q_seed: nat) -> bool {
    p_seed > 1 && q_seed > 1
}

/// The result of the whole search: from the seed at level 7 where one is
/// given, else from `(1, 1)` at level 0.
pub open spec fn search_result(n: nat, p_seed: nat, q_seed: nat) -> Option<(nat, nat)> {
    if is_seed(p_seed, q_seed) {
        explore(n, seed_level() + 1, p_seed, q_seed)
    } else {
        explore(n, 1, 1, 1)
    }
}

/// `n` has a factorization into two factors other than 1.
pub open spec fn has_factorization(n: nat) -> bool {
    exists|a: nat, b: nat| is_match(n, a, b)
}

/// `n` has a factorization into two factors other than 1 whose low bytes are
/// `s` and `t`.
pub open spec fn has_factorization_over(n: nat, s: nat, t: nat) -> bool {
    exists|a: nat, b: nat| #[trigger] is_match(n, a, b) && a % 256 == s && b % 256 == t
}

/// `p` has the low byte of `seed` kept and is no smaller than it.
pub open spec fn extends_seed(p: nat, seed: nat) -> bool {
    p >= seed && (p - seed) % 256 == 0
}

/// Raising a bit of one factor or of both makes the product larger.
pub proof fn lemma_raised_product(p: nat, q: nat, a: nat, b: nat, w: nat)
    requires
        p >= 1,
        q >= 1,
        w >= 1,
        a == p || a == p + w,
        b == q || b == q + w,
        a != p || b != q,
    ensures
        a * b > p * q,
        a * b >= w,
{
    assert(a * b > p * q && a * b >= w) by (nonlinear_arith)
        requires
            p >= 1,
            q >= 1,
            w >= 1,
            a == p || a == p + w,
            b == q || b == q + w,
            a != p || b != q,
    ;
}

/// Below a pair that is no match and whose product has reached `n`, or whose
/// level has reached the bit length of `n`, there is no match.
pub proof fn lemma_dead_end(n: nat, k: nat, p: nat, q: nat)
    requires
        p >= 1,
        q >= 1,
        !is_match(n, p, q),
        p * q >= n || k >= bit_length(n),
    ensures
        explore(n, k, p, q) is None,
    decreases bit_length(n) + 1 - k, 1nat,
{
    if !exhausted(n, k, p, q) {
        lemma_dead_child(n, k, p, q, 0);
        lemma_dead_child(n, k, p, q, 1);
    }
}

/// Below either pair derived from such a pair there is no match: the pair is
/// the same pair one level up, or its product exceeds `n`.
proof fn lemma_dead_child(n: nat, k: nat, p: nat, q: nat, attempt: nat)
    requires
        p >= 1,
        q >= 1,
        !is_match(n, p, q),
        !exhausted(n, k, p, q),
        p * q >= n || k >= bit_length(n),
    ensures
        explore(n, k + 1, child(n, k, p, q, attempt).0, child(n, k, p, q, attempt).1) is None,
    decreases bit_length(n) + 1 - k, 0nat,
{
    let c = child(n, k, p, q, attempt);
    if c == (p, q) {
        lemma_dead_end(n, k + 1, p, q);
    } else {
        // a raised bit: the product passes `n`, as `n` lies below the power
        // of two of its bit length
        lemma_pow2_pos(k);
        lemma_raised_product(p, q, c.0, c.1, pow2(k));
        lemma_bit_length_bounds(n);
    }
}

/// `a` continues `p` above level `k`: it has the low `k` bits of `p` kept and
/// is no smaller.
pub open spec fn continues(a: nat, p: nat, k: nat) -> bool {
    a >= p && (a - p) % (pow2(k) as int) == 0
}

/// What the search below `(p, q)` returns is a match, and each of its factors
/// continues the factor it was grown from.
pub proof fn lemma_explore_sound(n: nat, k: nat, p: nat, q: nat)
    ensures
        explore(n, k, p, q) matches Some((a, b)) ==> is_match(n, a, b) && continues(a, p, k)
            && continues(b, q, k),
    decreases bit_length(n) + 1 - k,
{
    lemma_pow2_pos(k);
    lemma_small_mod(0, pow2(k));
    if !is_match(n, p, q) && !exhausted(n, k, p, q) {
        let c0 = child(n, k, p, q, 0);
        let c1 = child(n, k, p, q, 1);
        lemma_explore_sound(n, k + 1, c0.0, c0.1);
        lemma_explore_sound(n, k + 1, c1.0, c1.1);
        if let Some((a, b)) = explore(n, k, p, q) {
            let c = if explore(n, k + 1, c0.0, c0.1) is Some {
                c0
            } else {
                c1
            };
            lemma_continues_down(a, c.0, p, k);
            lemma_continues_down(b, c.1, q, k);
        }
    }
}

/// A number that continues `c` above level `k + 1` continues `p` above level
/// `k`, where `c` is `p` with bit `k` raised or not.
proof fn lemma_continues_down(a: nat, c: nat, p: nat, k: nat)
    requires
        continues(a, c, k + 1),
        c == p || c == p + pow2(k),
    ensures
        continues(a, p, k),
{
    let w = pow2(k) as int;
    lemma_pow2_pos(k);
    lemma_pow2_unfold(k + 1);
    assert(w * 2 == pow2(k + 1));
    lemma_mod_mod(a - c, w, 2);
    if c != p {
        lemma_mod_add_multiples_vanish(a - c, w);
    }
}

/// The low bits of two odd factors are one of the two pairs that the search
/// derives from their lower bits: the path to a factorization never leaves
/// the tree.
pub proof fn lemma_path_step(x: nat, y: nat, k: nat)
    requires
        x % 2 == 1,
        y % 2 == 1,
        k >= 1,
    ensures
        exists|t: nat|
            t <= 1 && #[trigger] child(x * y, k, x % pow2(k), y % pow2(k), t) == (
                x % pow2(k + 1),
                y % pow2(k + 1),
            ),
{
    let n = x * y;
    let w = pow2(k);
    let m = pow2(k + 1);
    let p = x % w;
    let q = y % w;
    let pp = x % m;
    let qq = y % m;
    lemma_pow2_pos(k);
    lemma_pow2_pos(k + 1);
    lemma_pow2_unfold(k + 1);
    lemma_pow2_unfold(k);
    let h = pow2((k - 1) as nat);
    lemma_pow2_pos((k - 1) as nat);
    assert(w == 2 * h);
    // the lower bits of odd numbers are odd
    lemma_mod_mod(x as int, 2, h as int);
    lemma_mod_mod(y as int, 2, h as int);
    assert(p % 2 == 1 && q % 2 == 1);
    lemma_low_bits_step(x, k);
    lemma_low_bits_step(y, k);
    let a = bit_of(x, k);
    let b = bit_of(y, k);
    // bit k of n is bit k of the product of the low bits
    lemma_mul_mod_noop_general(x as int, y as int, m as int);
    lemma_mod_bound(x as int, m as int);
    lemma_mod_bound(y as int, m as int);
    assert((pp * qq) % m == n % m);
    lemma_bit_of_low_bits(pp * qq, n, k);
    // and that product is p * q plus t times the k-th power of two, where t
    // is odd exactly where one of the two bits is set and the other is not
    let t: nat = if a && b {
        p + q + w
    } else if a {
        q
    } else if b {
        p
    } else {
        0
    };
    assert(pp * qq == p * q + t * w) by {
        if a && b {
            assert((p + w) * (q + w) == p * q + (p + q + w) * w) by (nonlinear_arith);
        } else if a {
            assert((p + w) * q == p * q + q * w) by (nonlinear_arith);
        } else if b {
            assert(p * (q + w) == p * q + p * w) by (nonlinear_arith);
        } else {
            assert(0 * w == 0) by (nonlinear_arith);
        }
    }
    lemma_bit_of_sum(p * q, t, k);
    assert((t % 2 == 1) == (a != b));
    assert(agrees(n, k, p, q) == (a == b));
    let attempt: nat = if a == (k % 2 == 1) {
        0
    } else {
        1
    };
    assert(raises_p(k, attempt) == a);
    assert(child(n, k, p, q, attempt) == (pp, qq));
}

/// Where `n` is the product of two odd numbers, neither of them 1, the search
/// below their low bits finds a match.
pub proof fn lemma_explore_finds(x: nat, y: nat, k: nat)
    requires
        x % 2 == 1,
        y % 2 == 1,
        x != 1,
        y != 1,
        k >= 1,
    ensures
        explore(x * y, k, x % pow2(k), y % pow2(k)) is Some,
    decreases bit_length(x * y) + 1 - k,
{
    let n = x * y;
    let w = pow2(k);
    let p = x % w;
    let q = y % w;
    lemma_pow2_pos(k);
    if !is_match(n, p, q) {
        lemma_mod_decreases(x, w);
        lemma_mod_decreases(y, w);
        lemma_mul_inequality(p as int, x as int, q as int);
        lemma_mul_inequality(q as int, y as int, x as int);
        lemma_mul_is_commutative(x as int, q as int);
        lemma_mul_is_commutative(y as int, x as int);
        assert(p * q <= n);
        assert(k <= bit_length(n)) by {
            if k > bit_length(n) {
                // every bit of both factors lies below level k
                lemma_bit_length_bounds(n);
                lemma_pow2_strictly_increases(bit_length(n), k);
                lemma_mul_inequality(1, y as int, x as int);
                lemma_mul_inequality(1, x as int, y as int);
                lemma_small_mod(x, w);
                lemma_small_mod(y, w);
                assert(is_match(n, p, q));
            }
        }
        // the low bits one level up are one of the two pairs derived here
        lemma_path_step(x, y, k);
        lemma_explore_finds(x, y, k + 1);
    }
}

} // verus!
