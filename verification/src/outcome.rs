//! The three ranked scalars of a finished placement and the total order the
//! search uses to keep a running best: more observed cells first, then a
//! larger observed-altitude sum, then a smaller occupied-altitude sum.

use vstd::prelude::*;

verus! {

#[derive(Clone, Copy, PartialEq, Eq, Structural, Debug)]
pub struct BestResult {
    /// Number of distinct cells observed by at least one probe.
    pub visited_peaks: i32,
    /// Summed altitude of the observed cells.
    pub visited_altitudes: i64,
    /// Summed altitude of the cells the probes occupy.
    pub placed_altitudes: i64,
}

/// The search's starting incumbent, beaten by every real outcome.
pub open spec fn sentinel() -> BestResult {
    BestResult { visited_peaks: 0, visited_altitudes: 0, placed_altitudes: i64::MAX }
}

/// `a` ranks no better than `b`.
pub open spec fn rank_le(a: BestResult, b: BestResult) -> bool {
    ||| a.visited_peaks < b.visited_peaks
    ||| (a.visited_peaks == b.visited_peaks && a.visited_altitudes < b.visited_altitudes)
    ||| (a.visited_peaks == b.visited_peaks && a.visited_altitudes == b.visited_altitudes
        && a.placed_altitudes >= b.placed_altitudes)
}

/// The candidate strictly beats the incumbent.
pub open spec fn beats(c: BestResult, b: BestResult) -> bool {
    !rank_le(c, b)
}

/// The better of incumbent `b` and candidate `c`; an exact tie keeps `b`.
pub open spec fn rank_join(b: BestResult, c: BestResult) -> BestResult {
    if beats(c, b) {
        c
    } else {
        b
    }
}

pub proof fn lemma_rank_total(a: BestResult, b: BestResult)
    ensures
        rank_le(a, b) || rank_le(b, a),
{
}

pub proof fn lemma_rank_antisym(a: BestResult, b: BestResult)
    requires
        rank_le(a, b),
        rank_le(b, a),
    ensures
        a == b,
{
}

pub proof fn lemma_rank_trans(a: BestResult, b: BestResult, c: BestResult)
    requires
        rank_le(a, b),
        rank_le(b, c),
    ensures
        rank_le(a, c),
{
}

pub proof fn lemma_join_cases(a: BestResult, b: BestResult)
    ensures
        rank_join(a, b) == a || rank_join(a, b) == b,
        rank_le(a, rank_join(a, b)),
        rank_le(b, rank_join(a, b)),
{
}

/// A candidate that does not beat the incumbent can be dropped anywhere in a
/// chain of joins.
pub proof fn lemma_join_absorb(a: BestResult, b: BestResult)
    requires
        rank_le(b, a),
    ensures
        rank_join(a, b) == a,
        rank_join(b, a) == a,
{
}

/// Rotating a candidate out of a nested join.
pub proof fn lemma_join_rotate(a: BestResult, b: BestResult, c: BestResult)
    ensures
        rank_join(a, rank_join(b, c)) == rank_join(rank_join(a, c), b),
{
}

/// Dropping a dominated candidate from the middle of a nested join.
pub proof fn lemma_join_absorb_mid(cur: BestResult, s: BestResult, cand: BestResult, rest: BestResult)
    requires
        rank_le(cand, cur),
    ensures
        rank_join(cur, rank_join(s, rank_join(cand, rest))) == rank_join(cur, rank_join(s, rest)),
{
}

/// Regrouping a pushed candidate in a nested join.
pub proof fn lemma_join_regroup(cur: BestResult, s: BestResult, cand: BestResult, rest: BestResult)
    ensures
        rank_join(cur, rank_join(rank_join(s, cand), rest)) == rank_join(
            cur,
            rank_join(s, rank_join(cand, rest)),
        ),
{
}

/// Folding the ranking over a list of terminal outcomes, oldest first.
pub open spec fn fold_rank(init: BestResult, s: Seq<BestResult>) -> BestResult
    decreases s.len(),
{
    if s.len() == 0 {
        init
    } else {
        rank_join(fold_rank(init, s.drop_last()), s.last())
    }
}

pub proof fn lemma_fold_rank_ge_init(init: BestResult, s: Seq<BestResult>)
    ensures
        rank_le(init, fold_rank(init, s)),
    decreases s.len(),
{
    if s.len() > 0 {
        lemma_fold_rank_ge_init(init, s.drop_last());
        lemma_join_cases(fold_rank(init, s.drop_last()), s.last());
        lemma_rank_trans(init, fold_rank(init, s.drop_last()), fold_rank(init, s));
    }
}

pub proof fn lemma_fold_rank_ge_elem(init: BestResult, s: Seq<BestResult>, i: int)
    requires
        0 <= i < s.len(),
    ensures
        rank_le(s[i], fold_rank(init, s)),
    decreases s.len(),
{
    lemma_join_cases(fold_rank(init, s.drop_last()), s.last());
    if i < s.len() - 1 {
        lemma_fold_rank_ge_elem(init, s.drop_last(), i);
        assert(s.drop_last()[i] == s[i]);
        lemma_rank_trans(s[i], fold_rank(init, s.drop_last()), fold_rank(init, s));
    } else {
        assert(s.last() == s[i]);
    }
}

pub proof fn lemma_fold_rank_cases(init: BestResult, s: Seq<BestResult>)
    ensures
        fold_rank(init, s) == init || exists|i: int|
            0 <= i < s.len() && fold_rank(init, s) == s[i],
    decreases s.len(),
{
    if s.len() > 0 {
        lemma_fold_rank_cases(init, s.drop_last());
        lemma_join_cases(fold_rank(init, s.drop_last()), s.last());
        let r = fold_rank(init, s);
        if r == s.last() {
            assert(r == s[s.len() - 1]);
        } else if r != init {
            let j = choose|i: int|
                0 <= i < s.drop_last().len() && fold_rank(init, s.drop_last())
                    == s.drop_last()[i];
            assert(r == s[j]);
        }
    }
}

/// Ranking totality: folding the ranking over a list of outcomes gives the
/// same result for any reordering of the list — the fold is the unique
/// maximum of the outcomes and the initial value under the ranking order.
pub proof fn lemma_fold_rank_order_independent(
    init: BestResult,
    s1: Seq<BestResult>,
    s2: Seq<BestResult>,
)
    requires
        s1.to_multiset() == s2.to_multiset(),
    ensures
        fold_rank(init, s1) == fold_rank(init, s2),
{
    broadcast use vstd::seq_lib::group_to_multiset_ensures;

    lemma_fold_rank_le(init, s1, s2);
    lemma_fold_rank_le(init, s2, s1);
    lemma_rank_antisym(fold_rank(init, s1), fold_rank(init, s2));
}

proof fn lemma_fold_rank_le(init: BestResult, s1: Seq<BestResult>, s2: Seq<BestResult>)
    requires
        s1.to_multiset() == s2.to_multiset(),
    ensures
        rank_le(fold_rank(init, s1), fold_rank(init, s2)),
{
    broadcast use vstd::seq_lib::group_to_multiset_ensures;

    lemma_fold_rank_cases(init, s1);
    let r = fold_rank(init, s1);
    if r == init {
        lemma_fold_rank_ge_init(init, s2);
    } else {
        let i = choose|i: int| 0 <= i < s1.len() && fold_rank(init, s1) == s1[i];
        assert(s1.contains(r));
        assert(s1.to_multiset().count(r) > 0);
        assert(s2.contains(r));
        let j = choose|j: int| 0 <= j < s2.len() && s2[j] == r;
        lemma_fold_rank_ge_elem(init, s2, j);
    }
}

/// Keeps the better of the incumbent and a newly finished outcome.
pub fn rank_update(best: BestResult, cand: BestResult) -> (r: BestResult)
    ensures
        r == rank_join(best, cand),
{
    if cand.visited_peaks > best.visited_peaks {
        cand
    } else if cand.visited_peaks == best.visited_peaks && cand.visited_altitudes
        > best.visited_altitudes {
        cand
    } else if cand.visited_peaks == best.visited_peaks && cand.visited_altitudes
        == best.visited_altitudes && best.placed_altitudes > cand.placed_altitudes {
        cand
    } else {
        best
    }
}

/// Folds the ranking over finished outcomes; the result does not depend on
/// the order of the list.
pub fn rank_fold(init: BestResult, results: &Vec<BestResult>) -> (r: BestResult)
    ensures
        r == fold_rank(init, results@),
{
    let mut r = init;
    let mut i: usize = 0;
    while i < results.len()
        invariant
            i <= results@.len(),
            r == fold_rank(init, results@.subrange(0, i as int)),
        decreases results@.len() - i,
    {
        proof {
            let pre = results@.subrange(0, i as int);
            let post = results@.subrange(0, i as int + 1);
            assert(post.drop_last() =~= pre);
            assert(post.last() == results@[i as int]);
        }
        r = rank_update(r, results[i]);
        i = i + 1;
    }
    proof {
        assert(results@.subrange(0, results@.len() as int) =~= results@);
    }
    r
}

} // verus!
