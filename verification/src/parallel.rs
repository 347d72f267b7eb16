//! The parallel search: one search per seed, all at once, and the first
//! result that is not empty.

use crate::laws::law_parallel_success;
use crate::search::{as_nats, factorize_iterative};
use crate::seeds::is_seed_list;
use crate::tree::{has_factorization, search_result};
use rayon::iter::{IntoParallelIterator, ParallelIterator};
use vstd::prelude::*;

verus! {

/// `r` is what a race over the seeds may return: the result of the search
/// from one of the seeds where `r` holds a pair, and nothing only where the
/// search from every seed returns nothing.
pub open spec fn found_by_a_seed(n: nat, seeds: Seq<(u8, u8)>, r: Option<(nat, nat)>) -> bool {
    match r {
        Some(pair) => exists|i: int|
            0 <= i < seeds.len() && search_result(
                n,
                (#[trigger] seeds[i]).0 as nat,
                seeds[i].1 as nat,
            ) == Some(pair),
        None => forall|i: int|
            0 <= i < seeds.len() ==> search_result(
                n,
                (#[trigger] seeds[i]).0 as nat,
                seeds[i].1 as nat,
            ) is None,
    }
}

/// Calls `task` on the indices below `len`, on several threads at once, and
/// returns a result of one of the calls that is not empty.
///
/// This is rayon's `find_map_any` on the range `0..len`. Trusted of it: a
/// pair that it returns was returned by `task` for an index below `len`, and
/// it returns nothing only after `task` has returned nothing for every index
/// below `len`. Which of several pairs it returns is left open.
#[verifier::external_body]
fn find_map_any_index<F>(len: usize, task: F) -> (r: Option<(u128, u128)>) where
    F: Fn(usize) -> Option<(u128, u128)> + Sync + Send,

    requires
        forall|i: usize| i < len ==> call_requires(task, (i,)),
    ensures
        match r {
            Some(pair) => exists|i: usize| i < len && call_ensures(task, (i,), Some(pair)),
            None => forall|i: usize| i < len ==> call_ensures(task, (i,), None),
        },
{
    (0..len).into_par_iter().find_map_any(task)
}

/// Runs the search once for each seed, all seeds at once, and returns the
/// first result that is not empty; nothing where no seed leads to a match.
///
/// What is returned is the result of the search from one of the seeds, and
/// so a factorization of `n` with both factors above 1. Over the seed list of
/// an odd `n` a pair is returned exactly where `n` has such a factorization.
pub fn factorize_parallel(n: u128, seeds: &Vec<(u8, u8)>) -> (r: Option<(u128, u128)>)
    ensures
        found_by_a_seed(n as nat, seeds@, as_nats(r)),
        r matches Some((p, q)) ==> p * q == n && p > 1 && q > 1,
        n % 2 == 1 && is_seed_list(n as nat, seeds@) ==> (r is Some <==> has_factorization(
            n as nat,
        )),
{
    let task = |i: usize| -> (found: Option<(u128, u128)>)
        requires
            i < seeds.len(),
        ensures
            as_nats(found) == search_result(
                n as nat,
                seeds@[i as int].0 as nat,
                seeds@[i as int].1 as nat,
            ),
            found matches Some((p, q)) ==> p * q == n && p > 1 && q > 1,
        { factorize_iterative(n, seeds[i].0 as u128, seeds[i].1 as u128) };
    let r = find_map_any_index(seeds.len(), task);
    proof {
        match r {
            Some(pair) => {
                let i = choose|i: usize|
                    i < seeds.len() && call_ensures(task, (i,), Some(pair));
                assert(search_result(
                    n as nat,
                    seeds@[i as int].0 as nat,
                    seeds@[i as int].1 as nat,
                ) == as_nats(r));
            },
            None => {
                assert forall|i: int| 0 <= i < seeds@.len() implies search_result(
                    n as nat,
                    (#[trigger] seeds@[i]).0 as nat,
                    seeds@[i].1 as nat,
                ) is None by {
                    assert(call_ensures(task, (i as usize,), None));
                }
            },
        }
        if n % 2 == 1 && is_seed_list(n as nat, seeds@) {
            law_parallel_success(n as nat, seeds@, as_nats(r));
        }
    }
    r
}

} // verus!
