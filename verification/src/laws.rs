//! What holds of the search, of the seeds and of the parallel search, for all
//! inputs.
//!
//! A search from scratch builds odd factors only, so the laws on what it
//! finds speak of odd `n`; those that name the pair it returns speak of `n`
//! with at most one factorization into two factors, since of several the
//! search returns the first in its own order.

use crate::parallel::found_by_a_seed;
use crate::seeds::{is_seed_list, low_byte_consistent, pair_before};
use crate::tree::{
    extends_seed, has_factorization, has_factorization_over, is_match, is_seed,
    lemma_explore_finds, lemma_explore_sound, search_result,
};
use vstd::arithmetic::div_mod::lemma_mul_mod_noop_general;
use vstd::arithmetic::mul::lemma_mul_is_commutative;
use vstd::arithmetic::power2::lemma2_to64;
use vstd::prelude::*;

verus! {

/// `n` has at most one factorization into two factors other than 1, the
/// order of the two aside.
pub open spec fn one_factorization_at_most(n: nat) -> bool {
    forall|a: nat, b: nat, c: nat, d: nat|
        #[trigger] is_match(n, a, b) && #[trigger] is_match(n, c, d) ==> (c == a && d == b) || (c
            == b && d == a)
}

/// A result with the smaller value first.
pub open spec fn canonical(r: Option<(nat, nat)>) -> Option<(nat, nat)> {
    match r {
        Some((a, b)) => if a <= b {
            Some((a, b))
        } else {
            Some((b, a))
        },
        None => None,
    }
}

/// The factors of an odd product are odd.
pub proof fn lemma_odd_factors(p: nat, q: nat)
    requires
        (p * q) % 2 == 1,
    ensures
        p % 2 == 1,
        q % 2 == 1,
{
    lemma_mul_mod_noop_general(p as int, q as int, 2);
    let a = p % 2;
    let b = q % 2;
    assert(a * b == 0 || (a == 1 && b == 1)) by (nonlinear_arith)
        requires
            a == 0 || a == 1,
            b == 0 || b == 1,
    ;
}

/// The search never returns a wrong or a trivial pair: what it returns are
/// two factors of `n`, both greater than 1, and where a seed was given each
/// of them extends its seed.
pub proof fn law_result_is_factorization(n: nat, p_seed: nat, q_seed: nat)
    ensures
        search_result(n, p_seed, q_seed) matches Some((p, q)) ==> p * q == n && p > 1 && q > 1,
        is_seed(p_seed, q_seed) ==> (search_result(n, p_seed, q_seed) matches Some((p, q))
            ==> extends_seed(p, p_seed) && extends_seed(q, q_seed)),
{
    lemma2_to64();
    if is_seed(p_seed, q_seed) {
        lemma_explore_sound(n, 8, p_seed, q_seed);
    } else {
        lemma_explore_sound(n, 1, 1, 1);
    }
}

/// Seed rejection: where no factorization of `n` extends the seed, the
/// search from that seed returns nothing.
pub proof fn law_seed_rejection(n: nat, p_seed: nat, q_seed: nat)
    requires
        is_seed(p_seed, q_seed),
        forall|p: nat, q: nat|
            #[trigger] is_match(n, p, q) ==> !(extends_seed(p, p_seed) && extends_seed(q, q_seed)),
    ensures
        search_result(n, p_seed, q_seed) is None,
{
    law_result_is_factorization(n, p_seed, q_seed);
    if let Some((p, q)) = search_result(n, p_seed, q_seed) {
        assert(is_match(n, p, q));
    }
}

/// The search finds what there is: where an odd `n` is the product of `p`
/// and `q`, both greater than 1, the search from scratch returns a pair, and
/// so does the search from the low bytes of `p` and `q`.
pub proof fn law_search_finds(n: nat, p: nat, q: nat)
    requires
        p * q == n,
        p > 1,
        q > 1,
        n % 2 == 1,
    ensures
        search_result(n, 1, 1) is Some,
        search_result(n, p % 256, q % 256) is Some,
{
    lemma_odd_factors(p, q);
    lemma2_to64();
    lemma_explore_finds(p, q, 1);
    lemma_explore_finds(p, q, 8);
}

/// The product of two odd numbers is odd.
pub proof fn lemma_odd_product(p: nat, q: nat)
    requires
        p % 2 == 1,
        q % 2 == 1,
    ensures
        (p * q) % 2 == 1,
{
    lemma_mul_mod_noop_general(p as int, q as int, 2);
    assert((p % 2) * (q % 2) == 1) by (nonlinear_arith)
        requires
            p % 2 == 1,
            q % 2 == 1,
    ;
}

/// When the search from scratch succeeds: exactly where `n` is odd and has
/// a factorization into two factors other than 1.
pub proof fn law_unseeded_success(n: nat)
    ensures
        search_result(n, 1, 1) is Some <==> n % 2 == 1 && has_factorization(n),
{
    lemma2_to64();
    lemma_explore_sound(n, 1, 1, 1);
    if let Some((a, b)) = search_result(n, 1, 1) {
        lemma_odd_product(a, b);
        assert(is_match(n, a, b));
    }
    if n % 2 == 1 && has_factorization(n) {
        let (a, b) = choose|a: nat, b: nat| is_match(n, a, b);
        assert(a * b == n);
        assert(a != 0 && b != 0) by (nonlinear_arith)
            requires
                a * b == n,
                n % 2 == 1,
        ;
        law_search_finds(n, a, b);
    }
}

/// When the search from a seed of two odd bytes succeeds: exactly where `n`
/// has a factorization into two factors other than 1 with these low bytes.
pub proof fn law_seeded_success(n: nat, p_seed: nat, q_seed: nat)
    requires
        is_seed(p_seed, q_seed),
        p_seed < 256,
        q_seed < 256,
        p_seed % 2 == 1,
        q_seed % 2 == 1,
    ensures
        search_result(n, p_seed, q_seed) is Some <==> has_factorization_over(n, p_seed, q_seed),
{
    law_result_is_factorization(n, p_seed, q_seed);
    if let Some((a, b)) = search_result(n, p_seed, q_seed) {
        assert(is_match(n, a, b) && a % 256 == p_seed && b % 256 == q_seed);
    }
    if has_factorization_over(n, p_seed, q_seed) {
        let (a, b) = choose|a: nat, b: nat|
            #[trigger] is_match(n, a, b) && a % 256 == p_seed && b % 256 == q_seed;
        lemma_odd_product(a, b);
        law_search_finds(n, a, b);
    }
}

/// Round trip: where an odd `n` is the product of `p` and `q`, both greater
/// than 1, and has no other factorization, the search from scratch returns
/// `(p, q)` or `(q, p)`.
pub proof fn law_round_trip(n: nat, p: nat, q: nat)
    requires
        p * q == n,
        p > 1,
        q > 1,
        n % 2 == 1,
        one_factorization_at_most(n),
    ensures
        search_result(n, 1, 1) == Some((p, q)) || search_result(n, 1, 1) == Some((q, p)),
{
    law_search_finds(n, p, q);
    law_result_is_factorization(n, 1, 1);
    let r = search_result(n, 1, 1)->Some_0;
    assert(is_match(n, p, q));
    assert(is_match(n, r.0, r.1));
}

/// Seed correctness: under the same conditions the search from the low bytes
/// of `p` and `q` returns a pair, and it is the pair that the search from
/// scratch returns, the order of the two aside.
pub proof fn law_seed_correctness(n: nat, p: nat, q: nat)
    requires
        p * q == n,
        p > 1,
        q > 1,
        n % 2 == 1,
        one_factorization_at_most(n),
    ensures
        search_result(n, p % 256, q % 256) is Some,
        canonical(search_result(n, p % 256, q % 256)) == canonical(search_result(n, 1, 1)),
        canonical(search_result(n, 1, 1)) == canonical(Some((p, q))),
{
    law_search_finds(n, p, q);
    law_round_trip(n, p, q);
    law_result_is_factorization(n, p % 256, q % 256);
    let r = search_result(n, p % 256, q % 256)->Some_0;
    assert(is_match(n, p, q));
    assert(is_match(n, r.0, r.1));
}

/// Seed enumeration: a seed list holds each low-byte-consistent pair exactly
/// once, and no other pair.
pub proof fn law_seed_list_exact(n: nat, s: Seq<(u8, u8)>)
    requires
        is_seed_list(n, s),
    ensures
        forall|i: u8, j: u8| s.contains((i, j)) <==> low_byte_consistent(n, i as nat, j as nat),
        forall|x: int, y: int| 0 <= x < s.len() && 0 <= y < s.len() && s[x] == s[y] ==> x == y,
{
    assert forall|x: int, y: int| 0 <= x < s.len() && 0 <= y < s.len() && s[x] == s[y] implies x
        == y by {
        if x < y {
            assert(pair_before(s[x], s[y]));
        }
        if y < x {
            assert(pair_before(s[y], s[x]));
        }
    }
    assert forall|i: u8, j: u8| s.contains((i, j)) implies low_byte_consistent(
        n,
        i as nat,
        j as nat,
    ) by {
        let x = choose|x: int| 0 <= x < s.len() && s[x] == (i, j);
        assert(low_byte_consistent(n, s[x].0 as nat, s[x].1 as nat));
    }
}

/// When the race over the seeds of an odd `n` succeeds: exactly where the
/// search from scratch does, that is where `n` has a factorization into two
/// factors other than 1.
pub proof fn law_parallel_success(n: nat, seeds: Seq<(u8, u8)>, found: Option<(nat, nat)>)
    requires
        n % 2 == 1,
        is_seed_list(n, seeds),
        found_by_a_seed(n, seeds, found),
    ensures
        found is Some <==> search_result(n, 1, 1) is Some,
        found is Some <==> has_factorization(n),
        found matches Some((a, b)) ==> is_match(n, a, b),
{
    law_result_is_factorization(n, 1, 1);
    law_unseeded_success(n);
    match found {
        Some((a, b)) => {
            let i = choose|i: int|
                0 <= i < seeds.len() && search_result(
                    n,
                    (#[trigger] seeds[i]).0 as nat,
                    seeds[i].1 as nat,
                ) == Some((a, b));
            law_result_is_factorization(n, seeds[i].0 as nat, seeds[i].1 as nat);
            assert(is_match(n, a, b));
        },
        None => {
            if let Some((c, d)) = search_result(n, 1, 1) {
                // the low bytes of `c` and `d`, the larger first, are a seed
                let s = (c % 256) as u8;
                let t = (d % 256) as u8;
                lemma_mul_mod_noop_general(c as int, d as int, 256);
                lemma_mul_is_commutative(s as int, t as int);
                lemma_mul_is_commutative(c as int, d as int);
                law_search_finds(n, c, d);
                law_search_finds(n, d, c);
                if t <= s {
                    assert(low_byte_consistent(n, s as nat, t as nat));
                    assert(seeds.contains((s, t)));
                    let x = choose|x: int| 0 <= x < seeds.len() && seeds[x] == (s, t);
                    assert(search_result(n, seeds[x].0 as nat, seeds[x].1 as nat) is None);
                } else {
                    assert(low_byte_consistent(n, t as nat, s as nat));
                    assert(seeds.contains((t, s)));
                    let x = choose|x: int| 0 <= x < seeds.len() && seeds[x] == (t, s);
                    assert(search_result(n, seeds[x].0 as nat, seeds[x].1 as nat) is None);
                }
                assert(false);
            }
        },
    }
}

/// Parallel equivalence: for an odd `n` with at most one factorization, what
/// the race over the seeds of `n` returns is what the search from scratch
/// returns, the order of the two factors aside.
pub proof fn law_parallel_equivalence(n: nat, seeds: Seq<(u8, u8)>, found: Option<(nat, nat)>)
    requires
        n % 2 == 1,
        one_factorization_at_most(n),
        is_seed_list(n, seeds),
        found_by_a_seed(n, seeds, found),
    ensures
        canonical(found) == canonical(search_result(n, 1, 1)),
{
    law_parallel_success(n, seeds, found);
    law_result_is_factorization(n, 1, 1);
    if let Some((a, b)) = found {
        let r = search_result(n, 1, 1)->Some_0;
        assert(is_match(n, r.0, r.1));
    }
}

} // verus!
