//! Serial search: filter, score and sort one range of candidates.

use vstd::prelude::*;
use vstd::multiset::Multiset;
use vstd::seq_lib::group_to_multiset_ensures;

use crate::locate::LocateResult;
use crate::locate::locate_inner;
use crate::locate::mask_of;
use crate::mask::bits_of;
use crate::score::Score;
use crate::score::ScoreResult;
use crate::score::has_match;
use crate::score::is_match;
use crate::score::score_inner;
use crate::score::score_of;
use crate::score::ss_lt;

verus! {

/// Collection of scores and the candidates they apply to
pub type ScoreResults = Vec<ScoreResult>;

/// Collection of scores, locations, and the candidates they apply to
pub type LocateResults = Vec<LocateResult>;

/// `a` may stand at or before `b` in a result list: higher scores first,
/// equal scores in candidate order.
pub open spec fn result_le(a: ScoreResult, b: ScoreResult) -> bool {
    ss_lt(b.score@, a.score@) || (a.score@ == b.score@ && a.candidate_index
        <= b.candidate_index)
}

/// A result list is sorted by descending score with ties in candidate
/// order.
pub open spec fn results_sorted(r: Seq<ScoreResult>) -> bool {
    forall|k1: int, k2: int| 0 <= k1 < k2 < r.len() ==> result_le(r[k1], r[k2])
}

/// How many candidates of `cs[start..end]` match the query.
pub open spec fn match_count(q: Seq<char>, cs: Seq<String>, start: int, end: int) -> int
    decreases end - start,
{
    if start >= end {
        0
    } else {
        match_count(q, cs, start, end - 1) + if is_match(q, cs[end - 1]@) {
            1int
        } else {
            0int
        }
    }
}

/// What a search over `cs[start..end]` must return: one entry per matching
/// candidate of the range, no other entry, each candidate at most once,
/// and every entry carrying that pair's score.
pub open spec fn score_results_ok(
    r: Seq<ScoreResult>,
    q: Seq<char>,
    cs: Seq<String>,
    start: int,
    end: int,
) -> bool {
    &&& r.len() == match_count(q, cs, start, end)
    &&& forall|k: int|
        0 <= k < r.len() ==> start <= (#[trigger] r[k]).candidate_index < end && is_match(
            q,
            cs[r[k].candidate_index as int]@,
        ) && r[k].score@ == score_of(q, cs[r[k].candidate_index as int]@)
    &&& forall|i: int|
        start <= i < end && is_match(q, #[trigger] cs[i]@) ==> exists|k: int|
            0 <= k < r.len() && (#[trigger] r[k]).candidate_index == i
    &&& forall|k1: int, k2: int|
        0 <= k1 < k2 < r.len() ==> r[k1].candidate_index != r[k2].candidate_index
}

/// Equal views make equal scores: the score representation is one-to-one.
pub proof fn lemma_score_eq(x: Score, y: Score)
    ensures
        (x == y) <==> (x@ == y@),
{
    match (x, y) {
        (Score::Finite(a), Score::Finite(b)) => {
            assert(x@ == crate::score::SpecScore::Finite(a as int));
            assert(y@ == crate::score::SpecScore::Finite(b as int));
        },
        _ => {},
    }
}

/// The order on results is total.
pub proof fn lemma_result_le_total(a: ScoreResult, b: ScoreResult)
    ensures
        result_le(a, b) || result_le(b, a),
{
}

/// The order on results is transitive.
pub proof fn lemma_result_le_trans(a: ScoreResult, b: ScoreResult, c: ScoreResult)
    requires
        result_le(a, b),
        result_le(b, c),
    ensures
        result_le(a, c),
{
}

pub(crate) fn result_le_exec(a: &ScoreResult, b: &ScoreResult) -> (r: bool)
    ensures
        r == result_le(*a, *b),
{
    if b.score.lt(&a.score) {
        true
    } else if a.score == b.score {
        a.candidate_index <= b.candidate_index
    } else {
        proof {
            lemma_score_eq(a.score, b.score);
        }
        false
    }
}

/// Sort results by descending score, ties in candidate order; keeps
/// exactly the given entries.
fn sort_results(v: Vec<ScoreResult>) -> (r: Vec<ScoreResult>)
    ensures
        r@.to_multiset() == v@.to_multiset(),
        results_sorted(r@),
{
    broadcast use group_to_multiset_ensures;
    broadcast use vstd::multiset::group_multiset_axioms;

    let mut src = v;
    let mut out: Vec<ScoreResult> = Vec::new();
    proof {
        assert(out@.to_multiset().add(src@.to_multiset()) =~= v@.to_multiset());
    }
    while src.len() > 0
        invariant
            out@.to_multiset().add(src@.to_multiset()) == v@.to_multiset(),
            results_sorted(out@),
            forall|k: int, l: int|
                0 <= k < out@.len() && 0 <= l < src@.len() ==> result_le(out@[k], src@[l]),
        decreases src@.len(),
    {
        let mut best: usize = 0;
        let mut l: usize = 1;
        while l < src.len()
            invariant
                best < l <= src@.len(),
                src@.len() > 0,
                forall|k: int| 0 <= k < l ==> result_le(src@[best as int], #[trigger] src@[k]),
            decreases src@.len() - l,
        {
            if result_le_exec(&src[l], &src[best]) {
                proof {
                    assert forall|k: int| 0 <= k < l implies result_le(
                        src@[l as int],
                        #[trigger] src@[k],
                    ) by {
                        lemma_result_le_trans(src@[l as int], src@[best as int], src@[k]);
                    }
                }
                best = l;
            } else {
                proof {
                    lemma_result_le_total(src@[l as int], src@[best as int]);
                }
            }
            l = l + 1;
        }
        let ghost old_src = src@;
        let ghost old_out = out@;
        let picked = src.remove(best);
        out.push(picked);
        proof {
            vstd::seq_lib::to_multiset_remove(old_src, best as int);
            vstd::seq_lib::to_multiset_build(old_out, picked);
            old_src.to_multiset_ensures();
            assert(src@.to_multiset() == old_src.to_multiset().remove(picked));
            assert(out@.to_multiset() == old_out.to_multiset().insert(picked));
            assert(old_src.contains(picked));
            assert(old_src.to_multiset().count(picked) > 0);
            assert(out@.to_multiset().add(src@.to_multiset()) =~= v@.to_multiset());
        }
    }
    proof {
        assert(src@.to_multiset() =~= Multiset::empty());
        assert(out@.to_multiset() =~= v@.to_multiset());
    }
    out
}

/// Score every matching candidate of `candidates[start..end]`, keeping the
/// candidate's position in the whole list, and sort the results.
pub fn search_worker(query: &str, candidates: &Vec<String>, start: usize, end: usize) -> (r: Vec<
    ScoreResult,
>)
    requires
        start <= end <= candidates@.len(),
    ensures
        score_results_ok(r@, query@, candidates@, start as int, end as int),
        results_sorted(r@),
{
    broadcast use group_to_multiset_ensures;

    let mut collected: Vec<ScoreResult> = Vec::new();
    let mut idx: usize = start;
    while idx < end
        invariant
            start <= idx <= end <= candidates@.len(),
            collected@.len() == match_count(query@, candidates@, start as int, idx as int),
            forall|k: int|
                0 <= k < collected@.len() ==> start <= (#[trigger] collected@[k]).candidate_index
                    < idx && is_match(query@, candidates@[collected@[k].candidate_index as int]@)
                    && collected@[k].score@ == score_of(
                    query@,
                    candidates@[collected@[k].candidate_index as int]@,
                ),
            forall|i: int|
                start <= i < idx && is_match(query@, #[trigger] candidates@[i]@) ==> exists|k: int|
                    0 <= k < collected@.len() && (#[trigger] collected@[k]).candidate_index == i,
            forall|k1: int, k2: int|
                0 <= k1 < k2 < collected@.len() ==> collected@[k1].candidate_index
                    < collected@[k2].candidate_index,
        decreases end - idx,
    {
        let candidate = &candidates[idx];
        let ghost old_collected = collected@;
        if has_match(query, candidate.as_str()) {
            let entry = score_inner(query, candidate.as_str(), idx);
            collected.push(entry);
            proof {
                assert forall|i: int|
                    start <= i < idx + 1 && is_match(query@, #[trigger] candidates@[i]@) implies
                    exists|k: int|
                    0 <= k < collected@.len() && (#[trigger] collected@[k]).candidate_index
                        == i by {
                    if i == idx {
                        assert(collected@[old_collected.len() as int].candidate_index == i);
                    } else {
                        let k = choose|k: int|
                            0 <= k < old_collected.len() && (#[trigger] old_collected[k]).candidate_index
                                == i;
                        assert(collected@[k].candidate_index == i);
                    }
                }
            }
        }
        idx = idx + 1;
    }
    let ghost pre = collected@;
    let sorted = sort_results(collected);
    proof {
        lemma_sorted_keeps_results_ok(
            pre,
            sorted@,
            query@,
            candidates@,
            start as int,
            end as int,
        );
    }
    sorted
}

/// Rearranging a sequence keeps each of its elements.
pub(crate) proof fn lemma_ms_contains(a: Seq<ScoreResult>, b: Seq<ScoreResult>, x: ScoreResult)
    requires
        a.to_multiset() == b.to_multiset(),
        a.contains(x),
    ensures
        b.contains(x),
{
    broadcast use group_to_multiset_ensures;

    assert(a.to_multiset().count(x) > 0);
}

/// Every entry of a rearranged result list is sound for the range.
proof fn lemma_transfer_sound(
    pre: Seq<ScoreResult>,
    post: Seq<ScoreResult>,
    q: Seq<char>,
    cs: Seq<String>,
    start: int,
    end: int,
)
    requires
        score_results_ok(pre, q, cs, start, end),
        post.to_multiset() == pre.to_multiset(),
    ensures
        forall|k: int|
            0 <= k < post.len() ==> start <= (#[trigger] post[k]).candidate_index < end
                && is_match(q, cs[post[k].candidate_index as int]@) && post[k].score@ == score_of(
                q,
                cs[post[k].candidate_index as int]@,
            ),
{
    assert forall|k: int| 0 <= k < post.len() implies start <= (
    #[trigger] post[k]).candidate_index < end && is_match(q, cs[post[k].candidate_index as int]@)
        && post[k].score@ == score_of(q, cs[post[k].candidate_index as int]@) by {
        assert(post.contains(post[k]));
        lemma_ms_contains(post, pre, post[k]);
        let k0 = choose|k0: int| 0 <= k0 < pre.len() && pre[k0] == post[k];
    }
}

/// A rearranged result list still reports every matching candidate.
proof fn lemma_transfer_complete(
    pre: Seq<ScoreResult>,
    post: Seq<ScoreResult>,
    q: Seq<char>,
    cs: Seq<String>,
    start: int,
    end: int,
)
    requires
        score_results_ok(pre, q, cs, start, end),
        post.to_multiset() == pre.to_multiset(),
    ensures
        forall|i: int|
            start <= i < end && is_match(q, #[trigger] cs[i]@) ==> exists|k: int|
                0 <= k < post.len() && (#[trigger] post[k]).candidate_index == i,
{
    assert forall|i: int| start <= i < end && is_match(q, #[trigger] cs[i]@) implies exists|k: int|
        0 <= k < post.len() && (#[trigger] post[k]).candidate_index == i by {
        let k0 = choose|k0: int| 0 <= k0 < pre.len() && (#[trigger] pre[k0]).candidate_index == i;
        assert(pre.contains(pre[k0]));
        lemma_ms_contains(pre, post, pre[k0]);
        let k = choose|k: int| 0 <= k < post.len() && post[k] == pre[k0];
        assert(post[k].candidate_index == i);
    }
}

/// A rearranged result list still reports each candidate at most once.
proof fn lemma_transfer_distinct(
    pre: Seq<ScoreResult>,
    post: Seq<ScoreResult>,
    q: Seq<char>,
    cs: Seq<String>,
    start: int,
    end: int,
)
    requires
        score_results_ok(pre, q, cs, start, end),
        post.to_multiset() == pre.to_multiset(),
    ensures
        forall|k1: int, k2: int|
            0 <= k1 < k2 < post.len() ==> post[k1].candidate_index != post[k2].candidate_index,
{
    assert forall|k1: int, k2: int| 0 <= k1 < k2 < post.len() implies post[k1].candidate_index
        != post[k2].candidate_index by {
        if post[k1].candidate_index == post[k2].candidate_index {
            if post[k1] == post[k2] {
                broadcast use group_to_multiset_ensures;

                assert(pre.no_duplicates());
                pre.lemma_multiset_has_no_duplicates();
                lemma_count_two(post, k1, k2);
                assert(post.to_multiset().count(post[k1]) >= 2);
                assert(pre.to_multiset().contains(post[k1]));
                assert(pre.to_multiset().count(post[k1]) == 1);
            } else {
                assert(post.contains(post[k1]));
                assert(post.contains(post[k2]));
                lemma_ms_contains(post, pre, post[k1]);
                lemma_ms_contains(post, pre, post[k2]);
                let a = choose|a: int| 0 <= a < pre.len() && pre[a] == post[k1];
                let b = choose|b: int| 0 <= b < pre.len() && pre[b] == post[k2];
                assert(a != b);
            }
        }
    }
}

/// A sorted rearrangement of a result list that answers a range correctly
/// answers it correctly too.
proof fn lemma_sorted_keeps_results_ok(
    pre: Seq<ScoreResult>,
    post: Seq<ScoreResult>,
    q: Seq<char>,
    cs: Seq<String>,
    start: int,
    end: int,
)
    requires
        score_results_ok(pre, q, cs, start, end),
        post.to_multiset() == pre.to_multiset(),
    ensures
        score_results_ok(post, q, cs, start, end),
{
    assert(post.len() == pre.len()) by {
        broadcast use group_to_multiset_ensures;

        assert(post.to_multiset().len() == pre.to_multiset().len());
        assert(post.len() == post.to_multiset().len());
        assert(pre.len() == pre.to_multiset().len());
    }
    lemma_transfer_sound(pre, post, q, cs, start, end);
    lemma_transfer_complete(pre, post, q, cs, start, end);
    lemma_transfer_distinct(pre, post, q, cs, start, end);
}

/// Two distinct positions holding the same value put its count at two or
/// more.
pub(crate) proof fn lemma_count_two(s: Seq<ScoreResult>, k1: int, k2: int)
    requires
        0 <= k1 < k2 < s.len(),
        s[k1] == s[k2],
    ensures
        s.to_multiset().count(s[k1]) >= 2,
{
    broadcast use group_to_multiset_ensures;

    let dropped = s.remove(k2);
    assert(dropped.to_multiset() == s.to_multiset().remove(s[k2]));
    assert(dropped[k1] == s[k1]);
    assert(dropped.contains(s[k1]));
    assert(dropped.to_multiset().count(s[k1]) > 0);
    assert(s.to_multiset().count(s[k2]) == dropped.to_multiset().count(s[k2]) + 1);
}

/// Search serially among a collection of candidates using the given query,
/// returning an ordered collection of results (highest score first).
pub fn search_serial(query: &str, candidates: &Vec<String>) -> (r: ScoreResults)
    ensures
        score_results_ok(r@, query@, candidates@, 0, candidates@.len() as int),
        results_sorted(r@),
{
    search_worker(query, candidates, 0, candidates.len())
}

/// The score part of a located result.
pub open spec fn locate_to_score(r: LocateResult) -> ScoreResult {
    ScoreResult { candidate_index: r.candidate_index, score: r.score }
}

/// What a locating search must return: the scores of a correct search, and
/// for each entry the match mask of its (query, candidate) pair.
pub open spec fn locate_results_ok(
    r: Seq<LocateResult>,
    q: Seq<char>,
    cs: Seq<String>,
    start: int,
    end: int,
) -> bool {
    &&& score_results_ok(r.map_values(|x: LocateResult| locate_to_score(x)), q, cs, start, end)
    &&& forall|k: int|
        0 <= k < r.len() ==> bits_of((#[trigger] r[k]).match_mask) == mask_of(
            q,
            cs[r[k].candidate_index as int]@,
        )
}

/// A located result list is sorted the same way a scored one is.
pub open spec fn locate_results_sorted(r: Seq<LocateResult>) -> bool {
    results_sorted(r.map_values(|x: LocateResult| locate_to_score(x)))
}

/// Recover the match mask of every entry of a sorted result list.
#[verifier::loop_isolation(false)]
pub(crate) fn attach_masks(query: &str, candidates: &Vec<String>, scored: Vec<ScoreResult>) -> (r:
    Vec<LocateResult>)
    requires
        score_results_ok(scored@, query@, candidates@, 0, candidates@.len() as int),
        results_sorted(scored@),
    ensures
        locate_results_ok(r@, query@, candidates@, 0, candidates@.len() as int),
        locate_results_sorted(r@),
{
    let mut out: Vec<LocateResult> = Vec::new();
    let mut k: usize = 0;
    while k < scored.len()
        invariant
            out@.len() == k,
            k <= scored@.len(),
            forall|l: int| 0 <= l < k ==> locate_to_score(#[trigger] out@[l]) == scored@[l],
            forall|l: int|
                0 <= l < k ==> bits_of((#[trigger] out@[l]).match_mask) == mask_of(
                    query@,
                    candidates@[out@[l].candidate_index as int]@,
                ),
        decreases scored@.len() - k,
    {
        let idx = scored[k].candidate_index;
        let lr = locate_inner(query, candidates[idx].as_str(), idx);
        proof {
            lemma_score_eq(lr.score, scored@[k as int].score);
        }
        out.push(lr);
        k = k + 1;
    }
    proof {
        assert(out@.map_values(|x: LocateResult| locate_to_score(x)) =~= scored@);
    }
    out
}

/// Search serially among a collection of candidates using the given query,
/// returning an ordered collection of results (highest score first) with
/// the locations of the query in each candidate.
pub fn locate_serial(query: &str, candidates: &Vec<String>) -> (r: LocateResults)
    ensures
        locate_results_ok(r@, query@, candidates@, 0, candidates@.len() as int),
        locate_results_sorted(r@),
{
    let scored = search_worker(query, candidates, 0, candidates.len());
    attach_masks(query, candidates, scored)
}

} // verus!
