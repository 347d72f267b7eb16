//! The bit-reconstruction search on 128-bit numbers.
//!
//! The search keeps one frame per bit level and one try counter per level,
//! and walks the tree of `crate::tree` depth first: it advances by deriving
//! the next frame from the current one, and backtracks when a frame has
//! overshot `n` or no bit position is left.

use crate::bits::{
    bit_at, bit_count, bit_length, clamp, lemma_pow2_128, pow2_u128, times_pow2,
};
use crate::laws::{
    law_result_is_factorization, law_seeded_success, law_unseeded_success,
};
use crate::tree::{
    agrees, child, exhausted, explore, extends_seed, first_of, grow, has_factorization,
    has_factorization_over, is_match, is_seed, lemma_dead_end, search_result,
};
use vstd::arithmetic::mul::{lemma_mul_inequality, lemma_mul_is_commutative};
use vstd::arithmetic::power2::{
    lemma_pow2_adds, lemma_pow2_pos, lemma_pow2_strictly_increases, lemma_pow2_unfold, pow2,
};
use vstd::prelude::*;

verus! {

/// The candidate values of one level: the partial factors `p` and `q` and
/// their product, which is held at the largest `u128` where it does not fit.
#[derive(Clone, Copy, Debug)]
pub struct Frame {
    pub p: u128,
    pub q: u128,
    pub pq: u128,
}

impl Frame {
    /// The frame is sound as the frame of `level`: the factors are positive,
    /// the product field is their product (held at the largest `u128`), and a
    /// factor that may have bits above `level` stands beside a factor of at
    /// least 2.
    pub open spec fn wf(self, level: nat) -> bool {
        &&& self.p >= 1
        &&& self.q >= 1
        &&& self.pq == clamp(self.p as nat * self.q as nat)
        &&& (self.p < pow2(level + 1) || self.q >= 2)
        &&& (self.q < pow2(level + 1) || self.p >= 2)
    }

    /// The frame of level 0 of a search from scratch: both factors are 1.
    pub fn root() -> (f: Frame)
        ensures
            f.wf(0),
            f.p == 1,
            f.q == 1,
    {
        proof {
            lemma_pow2_pos(1);
            lemma_pow2_unfold(1);
        }
        Frame { p: 1, q: 1, pq: 1 }
    }

    /// The frame of level 7 of a search from a seed: the factors are the two
    /// seed values.
    pub fn seeded(p_0: u128, q_0: u128) -> (f: Frame)
        requires
            is_seed(p_0 as nat, q_0 as nat),
        ensures
            f.wf(7),
            f.p == p_0,
            f.q == q_0,
    {
        Frame { p: p_0, q: q_0, pq: product_or_max(p_0, q_0) }
    }

    /// The frame can be extended at level `k`: it is no match, its product
    /// has neither passed `n` nor reached the largest `u128`, and `k` is still
    /// a bit position of `n`.
    pub open spec fn open_at(self, n: nat, k: nat) -> bool {
        &&& !is_match(n, self.p as nat, self.q as nat)
        &&& self.pq <= n
        &&& self.pq < u128::MAX
        &&& k <= bit_length(n)
        &&& k < 128
    }
}

/// The product of two numbers, or the largest `u128` where it is too large.
pub fn product_or_max(a: u128, b: u128) -> (r: u128)
    ensures
        r == clamp(a as nat * b as nat),
{
    match a.checked_mul(b) {
        Some(v) => v,
        None => u128::MAX,
    }
}

/// Whether the frame holds a factorization of `n` with no factor 1.
pub fn frame_matches(n: u128, f: &Frame) -> (b: bool)
    requires
        f.pq == clamp(f.p as nat * f.q as nat),
    ensures
        b == is_match(n as nat, f.p as nat, f.q as nat),
{
    if f.pq != n || f.p == 1 || f.q == 1 {
        false
    } else if n < u128::MAX {
        true
    } else {
        match f.p.checked_mul(f.q) {
            Some(v) => v == n,
            None => false,
        }
    }
}

/// A factor with room above it: adding the `k`-th power of two stays within
/// `u128`.
proof fn lemma_raise_fits(f: Frame, k: nat)
    requires
        1 <= k < 128,
        f.wf((k - 1) as nat),
        f.pq < u128::MAX,
    ensures
        f.p + pow2(k) <= u128::MAX,
        f.q + pow2(k) <= u128::MAX,
        pow2(k) <= u128::MAX,
{
    lemma_pow2_128();
    lemma_pow2_unfold(128);
    lemma_pow2_unfold((k + 1) as nat);
    if k + 1 < 128 {
        lemma_pow2_strictly_increases((k + 1) as nat, 128);
    }
    if k < 127 {
        lemma_pow2_strictly_increases(k, 127);
    }
    let p = f.p as int;
    let q = f.q as int;
    assert(p * q < u128::MAX);
    if f.q >= 2 {
        lemma_mul_inequality(2, q, p);
        lemma_mul_is_commutative(p, q);
    }
    if f.p >= 2 {
        lemma_mul_inequality(2, p, q);
    }
}

/// The advance step: the frame that one attempt at level `k` derives from
/// `f`, where `raise` says whether the attempt raises bit `k` of `p`.
pub fn advance(n: u128, k: usize, f: Frame, raise: bool) -> (c: Frame)
    requires
        1 <= k < 128,
        f.wf((k - 1) as nat),
        f.pq < u128::MAX,
    ensures
        c.wf(k as nat),
        (c.p as nat, c.q as nat) == grow(n as nat, k as nat, f.p as nat, f.q as nat, raise),
{
    let w = pow2_u128(k);
    let same = bit_at(n, k) == bit_at(f.pq, k);
    proof {
        lemma_raise_fits(f, k as nat);
        lemma_pow2_pos(k as nat);
        lemma_pow2_unfold((k + 1) as nat);
        assert(same == agrees(n as nat, k as nat, f.p as nat, f.q as nat));
    }
    let ghost p = f.p as int;
    let ghost q = f.q as int;
    let ghost wi = w as int;
    if same {
        if raise {
            let pq = if k > 64 {
                proof {
                    // both factors exceed the 64th power of two
                    lemma_pow2_strictly_increases(64, k as nat);
                    lemma_pow2_adds(64, 64);
                    lemma_pow2_128();
                    lemma_mul_inequality(pow2(64) as int, p + wi, pow2(64) as int);
                    lemma_mul_inequality(pow2(64) as int, q + wi, p + wi);
                    lemma_mul_is_commutative(p + wi, pow2(64) as int);
                    lemma_mul_is_commutative(q + wi, p + wi);
                }
                u128::MAX
            } else {
                let sum = f.p.saturating_add(f.q).saturating_add(w);
                let grown = times_pow2(sum, k);
                proof {
                    assert((p + wi) * (q + wi) == p * q + (p + q + wi) * wi) by (nonlinear_arith);
                    if p + q + wi > u128::MAX {
                        assert(sum == u128::MAX);
                        lemma_mul_inequality(sum as int, p + q + wi, wi);
                        lemma_mul_inequality(1, wi, sum as int);
                        lemma_mul_is_commutative(sum as int, wi);
                    }
                }
                f.pq.saturating_add(grown)
            };
            Frame { p: f.p + w, q: f.q + w, pq }
        } else {
            proof {
                lemma_pow2_strictly_increases(k as nat, (k + 1) as nat);
            }
            f
        }
    } else if raise {
        let grown = times_pow2(f.q, k);
        proof {
            assert((p + wi) * q == p * q + q * wi) by (nonlinear_arith);
            lemma_pow2_strictly_increases(k as nat, (k + 1) as nat);
        }
        Frame { p: f.p + w, q: f.q, pq: f.pq.saturating_add(grown) }
    } else {
        let grown = times_pow2(f.p, k);
        proof {
            assert(p * (q + wi) == p * q + p * wi) by (nonlinear_arith);
            lemma_pow2_strictly_increases(k as nat, (k + 1) as nat);
        }
        Frame { p: f.p, q: f.q + w, pq: f.pq.saturating_add(grown) }
    }
}

/// What the search still returns once everything above level `j` has failed:
/// the second attempt of each level at or below `j` that has made one
/// attempt only, the deepest such level first.
spec fn resume(n: nat, frames: Seq<Frame>, tries: Seq<u8>, base: int, j: int) -> Option<(nat, nat)>
    decreases j - base,
{
    if j <= base {
        None
    } else {
        let rest = resume(n, frames, tries, base, j - 1);
        if tries[j] == 1 {
            let c = child(n, j as nat, frames[j - 1].p as nat, frames[j - 1].q as nat, 1);
            first_of(explore(n, (j + 1) as nat, c.0, c.1), rest)
        } else {
            rest
        }
    }
}

/// What the search returns from the state it is in: `k` is the level to
/// decide next, and frame `k - 1` is the current one.
spec fn pending(n: nat, frames: Seq<Frame>, tries: Seq<u8>, base: int, k: int) -> Option<(nat, nat)> {
    if tries[k] == 0 {
        first_of(
            explore(n, k as nat, frames[k - 1].p as nat, frames[k - 1].q as nat),
            resume(n, frames, tries, base, k - 1),
        )
    } else {
        resume(n, frames, tries, base, k)
    }
}

/// A bound on the steps that a fresh frame with next level `k` can take.
spec fn node_cost(k: int) -> nat
    decreases 129 - k,
{
    if k >= 129 {
        1
    } else {
        2 * node_cost(k + 1) + 2
    }
}

/// A bound on the steps owed by the second attempts at or below level `j`.
spec fn owed(tries: Seq<u8>, base: int, j: int) -> nat
    decreases j - base,
{
    if j <= base {
        0
    } else {
        owed(tries, base, j - 1) + if tries[j] == 1 {
            1 + node_cost(j + 1)
        } else {
            0
        }
    }
}

/// A bound on the steps that the search can still take.
spec fn work_left(tries: Seq<u8>, base: int, k: int) -> nat {
    owed(tries, base, k - 1) + if tries[k] == 0 {
        node_cost(k)
    } else {
        1 + node_cost(k + 1)
    }
}

/// The stack is in order: the levels between `base` and `k` have made one or
/// two attempts and their frames could be extended, the levels above `k`
/// have made none, and every frame up to `k - 1` is sound.
spec fn stack_ok(n: nat, frames: Seq<Frame>, tries: Seq<u8>, base: int, k: int) -> bool {
    &&& frames.len() == 128
    &&& tries.len() == 129
    &&& 0 <= base < k <= 128
    &&& tries[base] == 0
    &&& tries[k] <= 1
    &&& forall|i: int| base < i < k ==> 1 <= #[trigger] tries[i] <= 2
    &&& forall|i: int| k < i < 129 ==> #[trigger] tries[i] == 0
    &&& forall|i: int| base <= i < k ==> (#[trigger] frames[i]).wf(i as nat)
    &&& forall|i: int|
        base < i <= k && #[trigger] tries[i] >= 1 ==> frames[i - 1].open_at(n, i as nat)
}

/// `resume` reads the frames below `j` and the counters up to `j` only.
proof fn lemma_resume_reads(
    n: nat,
    frames: Seq<Frame>,
    tries: Seq<u8>,
    frames2: Seq<Frame>,
    tries2: Seq<u8>,
    base: int,
    j: int,
)
    requires
        forall|i: int| base <= i < j ==> frames[i] == frames2[i],
        forall|i: int| base < i <= j ==> tries[i] == tries2[i],
    ensures
        resume(n, frames, tries, base, j) == resume(n, frames2, tries2, base, j),
    decreases j - base,
{
    if j > base {
        lemma_resume_reads(n, frames, tries, frames2, tries2, base, j - 1);
    }
}

/// `owed` reads the counters up to `j` only.
proof fn lemma_owed_reads(tries: Seq<u8>, tries2: Seq<u8>, base: int, j: int)
    requires
        forall|i: int| base < i <= j ==> tries[i] == tries2[i],
    ensures
        owed(tries, base, j) == owed(tries2, base, j),
    decreases j - base,
{
    if j > base {
        lemma_owed_reads(tries, tries2, base, j - 1);
    }
}

/// Levels that have made both attempts add nothing to what is left.
proof fn lemma_skip_spent(n: nat, frames: Seq<Frame>, tries: Seq<u8>, base: int, lo: int, hi: int)
    requires
        base <= lo <= hi,
        forall|i: int| lo < i <= hi ==> tries[i] != 1,
    ensures
        resume(n, frames, tries, base, hi) == resume(n, frames, tries, base, lo),
        owed(tries, base, hi) == owed(tries, base, lo),
    decreases hi - lo,
{
    if hi > lo {
        lemma_skip_spent(n, frames, tries, base, lo, hi - 1);
    }
}

/// One advance step keeps the stack in order, leaves the result as it was
/// and uses up some of the work that was left.
proof fn lemma_advance(n: nat, frames: Seq<Frame>, tries: Seq<u8>, base: int, k: int, c: Frame)
    requires
        stack_ok(n, frames, tries, base, k),
        frames[k - 1].open_at(n, k as nat),
        c.wf(k as nat),
        (c.p as nat, c.q as nat) == child(
            n,
            k as nat,
            frames[k - 1].p as nat,
            frames[k - 1].q as nat,
            tries[k] as nat,
        ),
    ensures
        stack_ok(n, frames.update(k, c), tries.update(k, (tries[k] + 1) as u8), base, k + 1),
        pending(n, frames.update(k, c), tries.update(k, (tries[k] + 1) as u8), base, k + 1)
            == pending(n, frames, tries, base, k),
        work_left(tries.update(k, (tries[k] + 1) as u8), base, k + 1) < work_left(tries, base, k),
{
    let frames2 = frames.update(k, c);
    let tries2 = tries.update(k, (tries[k] + 1) as u8);
    let f = frames[k - 1];
    lemma_resume_reads(n, frames, tries, frames2, tries2, base, k - 1);
    lemma_owed_reads(tries, tries2, base, k - 1);
    assert(frames2[k - 1] == f);
    assert(tries2[k + 1] == 0);
    assert(f.pq == f.p as nat * f.q as nat);
    assert(!exhausted(n, k as nat, f.p as nat, f.q as nat));
    assert(stack_ok(n, frames2, tries2, base, k + 1)) by {
        assert forall|i: int| base < i <= k + 1 && #[trigger] tries2[i] >= 1 implies frames2[i
            - 1].open_at(n, i as nat) by {
            if i < k {
                assert(tries[i] >= 1);
            }
        }
    }
    assert(node_cost(k) == 2 * node_cost(k + 1) + 2);
}

/// The backtrack step: resets the counter of level `k` and of every level
/// below it that has made both attempts, and returns the level at which the
/// search goes on: the highest level below `k` that has made fewer than two
/// attempts, which is `base` at the latest.
pub fn unwind(tries: &mut Vec<u8>, k: usize, base: usize) -> (j: usize)
    requires
        old(tries).len() == 129,
        base < k <= 128,
        old(tries)[base as int] <= 1,
    ensures
        final(tries).len() == 129,
        base <= j < k,
        old(tries)[j as int] <= 1,
        forall|i: int| j < i < k ==> old(tries)[i] > 1,
        forall|i: int| 0 <= i <= j ==> final(tries)[i] == old(tries)[i],
        forall|i: int| j < i <= k ==> final(tries)[i] == 0,
        forall|i: int| k < i < 129 ==> final(tries)[i] == old(tries)[i],
{
    tries.set(k, 0);
    let mut j = k - 1;
    while tries[j] > 1
        invariant
            tries.len() == 129,
            base <= j < k <= 128,
            tries[base as int] <= 1,
            forall|i: int| j < i < k ==> old(tries)[i] > 1,
            forall|i: int| 0 <= i <= j ==> tries[i] == old(tries)[i],
            forall|i: int| j < i <= k ==> tries[i] == 0,
            forall|i: int| k < i < 129 ==> tries[i] == old(tries)[i],
        decreases j,
    {
        tries.set(j, 0);
        j = j - 1;
    }
    j
}

/// A fresh frame can always take a step.
proof fn lemma_node_cost_pos(k: int)
    ensures
        node_cost(k) >= 1,
    decreases 129 - k,
{
    if k < 129 {
        lemma_node_cost_pos(k + 1);
    }
}

/// One backtrack step from a frame below which nothing matches: either no
/// level is left and the result is empty, or the stack is in order at the
/// level reached, the result is as it was and some of the work is used up.
proof fn lemma_backtrack(
    n: nat,
    frames: Seq<Frame>,
    tries: Seq<u8>,
    tries2: Seq<u8>,
    base: int,
    k: int,
    j: int,
)
    requires
        stack_ok(n, frames, tries, base, k),
        tries[k] == 0,
        explore(n, k as nat, frames[k - 1].p as nat, frames[k - 1].q as nat) is None,
        tries2.len() == 129,
        base <= j < k,
        tries[j] <= 1,
        forall|i: int| j < i < k ==> tries[i] > 1,
        forall|i: int| 0 <= i <= j ==> tries2[i] == tries[i],
        forall|i: int| j < i <= k ==> tries2[i] == 0,
        forall|i: int| k < i < 129 ==> tries2[i] == tries[i],
    ensures
        j == base ==> pending(n, frames, tries, base, k) is None,
        j > base ==> stack_ok(n, frames, tries2, base, j),
        j > base ==> pending(n, frames, tries2, base, j) == pending(n, frames, tries, base, k),
        j > base ==> work_left(tries2, base, j) < work_left(tries, base, k),
{
    lemma_skip_spent(n, frames, tries, base, j, k - 1);
    lemma_node_cost_pos(k);
    if j > base {
        assert(tries[j] == 1);
        lemma_resume_reads(n, frames, tries, frames, tries2, base, j);
        lemma_owed_reads(tries, tries2, base, j);
        assert(stack_ok(n, frames, tries2, base, j)) by {
            assert forall|i: int| base < i <= j && #[trigger] tries2[i] >= 1 implies frames[i
                - 1].open_at(n, i as nat) by {
                assert(tries[i] >= 1);
            }
            assert forall|i: int| j < i < 129 implies #[trigger] tries2[i] == 0 by {
                if i > k {
                    assert(tries[i] == 0);
                }
            }
        }
    }
}

/// The try-order flags, one for each bit level: at an odd level the attempt
/// that raises bit `k` of `p` is made first.
pub fn try_order_flags() -> (flags: Vec<bool>)
    ensures
        flags.len() == 128,
        forall|i: int| 0 <= i < 128 ==> flags[i] == (i % 2 == 1),
{
    let mut flags: Vec<bool> = Vec::with_capacity(128);
    let mut i: usize = 0;
    while i < 128
        invariant
            i <= 128,
            flags.len() == i,
            forall|x: int| 0 <= x < i ==> flags[x] == (x % 2 == 1),
        decreases 128 - i,
    {
        flags.push(i % 2 == 1);
        i = i + 1;
    }
    flags
}

/// A search result as a pair of naturals.
pub open spec fn as_nats(r: Option<(u128, u128)>) -> Option<(nat, nat)> {
    match r {
        Some((p, q)) => Some((p as nat, q as nat)),
        None => None,
    }
}

/// What holds of the result of the search, whatever the input.
proof fn lemma_result_facts(n: nat, p_0: nat, q_0: nat)
    ensures
        search_result(n, p_0, q_0) matches Some((p, q)) ==> p * q == n && p > 1 && q > 1,
        is_seed(p_0, q_0) ==> (search_result(n, p_0, q_0) matches Some((p, q)) ==> extends_seed(
            p,
            p_0,
        ) && extends_seed(q, q_0)),
        !is_seed(p_0, q_0) ==> (search_result(n, p_0, q_0) is Some <==> n % 2 == 1
            && has_factorization(n)),
        is_seed(p_0, q_0) && p_0 < 256 && q_0 < 256 && p_0 % 2 == 1 && q_0 % 2 == 1 ==> (
        search_result(n, p_0, q_0) is Some <==> has_factorization_over(n, p_0, q_0)),
{
    law_result_is_factorization(n, p_0, q_0);
    law_unseeded_success(n);
    if is_seed(p_0, q_0) && p_0 < 256 && q_0 < 256 && p_0 % 2 == 1 && q_0 % 2 == 1 {
        law_seeded_success(n, p_0, q_0);
    }
}

/// Searches for two factors of `n`, neither of them 1, by rebuilding them bit
/// by bit from the least significant bit upwards.
///
/// Where `p_0` and `q_0` both exceed 1 they are taken as a seed, the low
/// eight bits of the two factors, and the search starts above them; else it
/// starts from scratch. The search walks the tree of candidate pairs depth
/// first with one frame and one try counter per level, and returns the first
/// match in the order of the attempts (`search_result`), or nothing where the
/// tree holds no match.
///
/// What is returned is a factorization of `n` with both factors above 1. From
/// scratch a pair is returned exactly where `n` is odd and has such a
/// factorization; from a seed of two odd bytes, exactly where `n` has one with
/// these low bytes. From any seed, each factor returned extends its seed
/// value.
pub fn factorize_iterative(n: u128, p_0: u128, q_0: u128) -> (r: Option<(u128, u128)>)
    ensures
        as_nats(r) == search_result(n as nat, p_0 as nat, q_0 as nat),
        r matches Some((p, q)) ==> p * q == n && p > 1 && q > 1,
        is_seed(p_0 as nat, q_0 as nat) ==> (r matches Some((p, q)) ==> extends_seed(
            p as nat,
            p_0 as nat,
        ) && extends_seed(q as nat, q_0 as nat)),
        !is_seed(p_0 as nat, q_0 as nat) ==> (r is Some <==> n % 2 == 1 && has_factorization(
            n as nat,
        )),
        is_seed(p_0 as nat, q_0 as nat) && p_0 < 256 && q_0 < 256 && p_0 % 2 == 1 && q_0 % 2 == 1
            ==> (r is Some <==> has_factorization_over(n as nat, p_0 as nat, q_0 as nat)),
{
    let n_msb = bit_count(n);
    let try_pq_1x_first = try_order_flags();
    // one counter for each level up to 128, the level past the last bit
    let mut try_count: Vec<u8> = vec![0u8; 129];
    // one frame for each bit level
    let mut frames: Vec<Frame> = vec![Frame::root(); 128];
    let mut k: usize = 1;
    let mut base: usize = 0;
    if p_0 > 1 && q_0 > 1 {
        frames.set(7, Frame::seeded(p_0, q_0));
        k = 8;
        base = 7;
    } else {
        frames.set(0, Frame::root());
    }
    proof {
        assert(stack_ok(n as nat, frames@, try_count@, base as int, k as int));
        assert(resume(n as nat, frames@, try_count@, base as int, base as int) is None);
    }
    loop
        invariant
            n_msb == bit_length(n as nat),
            n_msb <= 128,
            try_pq_1x_first.len() == 128,
            forall|i: int| 0 <= i < 128 ==> try_pq_1x_first[i] == (i % 2 == 1),
            stack_ok(n as nat, frames@, try_count@, base as int, k as int),
            pending(n as nat, frames@, try_count@, base as int, k as int) == search_result(
                n as nat,
                p_0 as nat,
                q_0 as nat,
            ),
        decreases work_left(try_count@, base as int, k as int),
    {
        let f = frames[k - 1];
        let ghost p = f.p as nat;
        let ghost q = f.q as nat;
        if frame_matches(n, &f) {
            proof {
                if try_count[k as int] != 0 {
                    assert(frames@[k - 1].open_at(n as nat, k as nat));
                }
                lemma_result_facts(n as nat, p_0 as nat, q_0 as nat);
            }
            return Some((f.p, f.q));
        }
        if n < f.pq || f.pq == u128::MAX || k > n_msb || k >= 128 {
            let ghost before = try_count@;
            proof {
                if try_count[k as int] != 0 {
                    assert(frames@[k - 1].open_at(n as nat, k as nat));
                }
                if !exhausted(n as nat, k as nat, p, q) {
                    lemma_dead_end(n as nat, k as nat, p, q);
                }
            }
            let j = unwind(&mut try_count, k, base);
            proof {
                lemma_backtrack(
                    n as nat,
                    frames@,
                    before,
                    try_count@,
                    base as int,
                    k as int,
                    j as int,
                );
            }
            k = j;
            if k == base {
                proof {
                    lemma_result_facts(n as nat, p_0 as nat, q_0 as nat);
                }
                return None;
            }
        } else {
            let raise = try_pq_1x_first[k] == (try_count[k] == 0);
            let c = advance(n, k, f, raise);
            proof {
                lemma_advance(n as nat, frames@, try_count@, base as int, k as int, c);
            }
            frames.set(k, c);
            try_count.set(k, try_count[k] + 1);
            k = k + 1;
        }
    }
}

} // verus!
