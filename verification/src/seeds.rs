//! Candidate low bytes of the two factors.
//!
//! The low byte of a product depends on the low bytes of its factors only, so
//! the pairs of bytes whose product ends in the low byte of `n` are the only
//! possible low bytes of a factorization of `n`.

use vstd::prelude::*;

verus! {

/// `(i, j)` is a pair of bytes, the larger first, whose product has the low
/// byte of `n`.
pub open spec fn low_byte_consistent(n: nat, i: nat, j: nat) -> bool {
    j <= i && i <= 255 && (i * j) % 256 == n % 256
}

/// `a` comes before `b`: by the first byte, then by the second.
pub open spec fn pair_before(a: (u8, u8), b: (u8, u8)) -> bool {
    a.0 < b.0 || (a.0 == b.0 && a.1 < b.1)
}

/// `s` is the list of the seeds of `n`: it holds the low-byte-consistent
/// pairs, all of them, in ascending order.
pub open spec fn is_seed_list(n: nat, s: Seq<(u8, u8)>) -> bool {
    &&& forall|x: int|
        0 <= x < s.len() ==> low_byte_consistent(n, (#[trigger] s[x]).0 as nat, s[x].1 as nat)
    &&& forall|i: u8, j: u8|
        low_byte_consistent(n, i as nat, j as nat) ==> #[trigger] s.contains((i, j))
    &&& forall|x: int, y: int|
        0 <= x < y < s.len() ==> pair_before(#[trigger] s[x], #[trigger] s[y])
}

/// The part of the seed list that is complete once the pairs before `(i, j)`
/// have been tested.
spec fn listed_up_to(n: nat, s: Seq<(u8, u8)>, i: nat, j: nat) -> bool {
    &&& forall|x: int|
        0 <= x < s.len() ==> low_byte_consistent(n, (#[trigger] s[x]).0 as nat, s[x].1 as nat)
            && (s[x].0 < i || (s[x].0 == i && s[x].1 < j))
    &&& forall|a: u8, b: u8|
        low_byte_consistent(n, a as nat, b as nat) && (a < i || (a == i && b < j))
            ==> #[trigger] s.contains((a, b))
    &&& forall|x: int, y: int|
        0 <= x < y < s.len() ==> pair_before(#[trigger] s[x], #[trigger] s[y])
}

/// Appending the pair `(i, j)` to a list that is complete before it gives a
/// list that is complete before the next pair.
proof fn lemma_listed_push(n: nat, s: Seq<(u8, u8)>, i: u8, j: u8)
    requires
        listed_up_to(n, s, i as nat, j as nat),
        low_byte_consistent(n, i as nat, j as nat),
    ensures
        listed_up_to(n, s.push((i, j)), i as nat, (j + 1) as nat),
{
    let s2 = s.push((i, j));
    assert forall|a: u8, b: u8|
        low_byte_consistent(n, a as nat, b as nat) && (a < i || (a == i && b < j + 1))
            implies #[trigger] s2.contains((a, b)) by {
        if a == i && b == j {
            assert(s2[s.len() as int] == (a, b));
        } else {
            assert(s.contains((a, b)));
            let x = choose|x: int| 0 <= x < s.len() && s[x] == (a, b);
            assert(s2[x] == (a, b));
        }
    }
}

/// All pairs of bytes `(i, j)` with `j <= i` whose product, taken modulo 256,
/// is the low byte of `n`: by `i` ascending, then by `j` ascending.
pub fn possible_factor_lsb_pairs(n: u128) -> (result: Vec<(u8, u8)>)
    ensures
        is_seed_list(n as nat, result@),
{
    let mut result: Vec<(u8, u8)> = Vec::with_capacity(64);
    let low: u8 = #[verifier::truncate] (n as u8);
    proof {
        assert(low == n % 256) by (bit_vector)
            requires
                low == #[verifier::truncate] (n as u8),
        ;
    }
    let mut i: u8 = 0;
    loop
        invariant_except_break
            listed_up_to(n as nat, result@, i as nat, 0),
        invariant
            low == n % 256,
        ensures
            is_seed_list(n as nat, result@),
        decreases 255 - i,
    {
        let mut j: u8 = 0;
        loop
            invariant_except_break
                j <= i,
                listed_up_to(n as nat, result@, i as nat, j as nat),
            invariant
                low == n % 256,
            ensures
                listed_up_to(n as nat, result@, i as nat, (i + 1) as nat),
            decreases i - j,
        {
            if i.wrapping_mul(j) == low {
                proof {
                    lemma_listed_push(n as nat, result@, i, j);
                }
                result.push((i, j));
            }
            if j == i {
                break ;
            }
            j = j + 1;
        }
        if i == u8::MAX {
            break ;
        }
        i = i + 1;
    }
    result
}

} // verus!
