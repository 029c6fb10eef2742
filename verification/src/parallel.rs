//! The sharded search drivers.
//!
//! Candidates are split into contiguous shards of near-equal size, each
//! shard is searched on its own, and the sorted shard results are merged
//! into one sorted output. Shard boundaries never change what is returned:
//! the output is pinned, entry by entry, by the same contract as the
//! serial search.

use vstd::prelude::*;
use vstd::multiset::group_multiset_axioms;
use vstd::seq_lib::group_to_multiset_ensures;

use crate::search::LocateResults;
use crate::search::ScoreResults;
use crate::score::ScoreResult;
use crate::search::attach_masks;
use crate::search::lemma_count_two;
use crate::search::lemma_result_le_total;
use crate::search::lemma_result_le_trans;
use crate::search::locate_results_ok;
use crate::search::locate_results_sorted;
use crate::search::match_count;
use crate::search::result_le;
use crate::search::result_le_exec;
use crate::search::results_sorted;
use crate::search::score_results_ok;
use crate::search::search_worker;
use crate::score::is_match;
use crate::score::score_of;

verus! {

/// Integer ceiling division
pub fn ceil_div(a: usize, b: usize) -> (r: usize)
    requires
        b > 0,
    ensures
        r == (a + b - 1) / b as int,
{
    if a == 0 {
        proof {
            vstd::arithmetic::div_mod::lemma_basic_div((b - 1) as int, b as int);
        }
        0
    } else {
        proof {
            vstd::arithmetic::div_mod::lemma_div_plus_one((a - 1) as int, b as int);
            vstd::arithmetic::div_mod::lemma_div_nonincreasing((a - 1) as int, b as int);
            vstd::arithmetic::div_mod::lemma_div_pos_is_pos((a - 1) as int, b as int);
        }
        (a - 1) / b + 1
    }
}

/// The number of shards used for a given candidate count, configured
/// parallelism and query: one for an empty query, otherwise the
/// configured value capped by a ramp on the candidate count and by the
/// count itself, and at least one.
pub open spec fn parallelism_of(count: int, configured: int, empty: bool) -> int {
    if empty {
        1
    } else {
        let ramped = if count < 17 {
            (count + 3) / 4
        } else if count > 32 {
            (count + 7) / 8
        } else {
            4
        };
        let capped = if ramped < configured {
            ramped
        } else {
            configured
        };
        let twice_capped = if count < capped {
            count
        } else {
            capped
        };
        if twice_capped < 1 {
            1
        } else {
            twice_capped
        }
    }
}

pub fn calculate_parallelism(
    candidate_count: usize,
    configured_parallelism: usize,
    empty_query: bool,
) -> (r: usize)
    ensures
        r == parallelism_of(candidate_count as int, configured_parallelism as int, empty_query),
        r >= 1,
{
    if empty_query {
        // No need to do much for no query
        return 1;
    }
    // Use a ramp up to avoid unnecessarily starting threads with few candidates
    let ramped_parallelism: usize = if candidate_count < 17 {
        ceil_div(candidate_count, 4)
    } else if candidate_count > 32 {
        ceil_div(candidate_count, 8)
    } else {
        4
    };
    let mut out = configured_parallelism;
    if ramped_parallelism < out {
        out = ramped_parallelism;
    }
    if candidate_count < out {
        out = candidate_count;
    }
    if out < 1 {
        out = 1;
    }
    out
}

/// Merge two sorted result lists into one sorted list holding exactly the
/// entries of both.
pub fn merge_results(a: Vec<ScoreResult>, b: Vec<ScoreResult>) -> (r: Vec<ScoreResult>)
    requires
        results_sorted(a@),
        results_sorted(b@),
    ensures
        results_sorted(r@),
        r@.to_multiset() == a@.to_multiset().add(b@.to_multiset()),
{
    broadcast use group_to_multiset_ensures;
    broadcast use group_multiset_axioms;

    let mut out: Vec<ScoreResult> = Vec::new();
    let mut ia: usize = 0;
    let mut ib: usize = 0;
    proof {
        assert(a@.take(0) =~= Seq::<ScoreResult>::empty());
        assert(b@.take(0) =~= Seq::<ScoreResult>::empty());
        assert(out@.to_multiset() =~= a@.take(0).to_multiset().add(b@.take(0).to_multiset()));
    }
    while ia < a.len() || ib < b.len()
        invariant
            ia <= a@.len(),
            ib <= b@.len(),
            results_sorted(a@),
            results_sorted(b@),
            out@.to_multiset() == a@.take(ia as int).to_multiset().add(
                b@.take(ib as int).to_multiset(),
            ),
            results_sorted(out@),
            forall|k: int, l: int|
                0 <= k < out@.len() && ia <= l < a@.len() ==> result_le(
                    #[trigger] out@[k],
                    #[trigger] a@[l],
                ),
            forall|k: int, l: int|
                0 <= k < out@.len() && ib <= l < b@.len() ==> result_le(
                    #[trigger] out@[k],
                    #[trigger] b@[l],
                ),
        decreases a@.len() - ia + b@.len() - ib,
    {
        let take_a = if ib == b.len() {
            true
        } else if ia == a.len() {
            false
        } else {
            result_le_exec(&a[ia], &b[ib])
        };
        let ghost old_out = out@;
        if take_a {
            let x = a[ia];
            out.push(x);
            proof {
                assert(a@.take(ia + 1) =~= a@.take(ia as int).push(x));
                vstd::seq_lib::to_multiset_build(a@.take(ia as int), x);
                vstd::seq_lib::to_multiset_build(old_out, x);
                assert(out@.to_multiset() =~= a@.take(ia + 1).to_multiset().add(
                    b@.take(ib as int).to_multiset(),
                ));
                assert forall|l: int| ib <= l < b@.len() implies result_le(
                    x,
                    #[trigger] b@[l],
                ) by {
                    lemma_result_le_total(x, b@[l as int]);
                    if l > ib {
                        lemma_result_le_trans(x, b@[ib as int], b@[l]);
                    }
                }
            }
            ia = ia + 1;
        } else {
            let x = b[ib];
            out.push(x);
            proof {
                lemma_result_le_total(a@[ia as int], b@[ib as int]);
                assert(b@.take(ib + 1) =~= b@.take(ib as int).push(x));
                vstd::seq_lib::to_multiset_build(b@.take(ib as int), x);
                vstd::seq_lib::to_multiset_build(old_out, x);
                assert(out@.to_multiset() =~= a@.take(ia as int).to_multiset().add(
                    b@.take(ib + 1).to_multiset(),
                ));
                assert forall|l: int| ia <= l < a@.len() implies result_le(
                    x,
                    #[trigger] a@[l],
                ) by {
                    if l > ia {
                        lemma_result_le_trans(x, a@[ia as int], a@[l]);
                    }
                }
            }
            ib = ib + 1;
        }
    }
    proof {
        assert(a@.take(a@.len() as int) =~= a@);
        assert(b@.take(b@.len() as int) =~= b@);
    }
    out
}

/// Matches over a split range are the matches of its two parts.
proof fn lemma_match_count_split(q: Seq<char>, cs: Seq<String>, s: int, m: int, e: int)
    requires
        s <= m <= e,
    ensures
        match_count(q, cs, s, e) == match_count(q, cs, s, m) + match_count(q, cs, m, e),
    decreases e - m,
{
    if m < e {
        lemma_match_count_split(q, cs, s, m, e - 1);
    }
}

/// Merging correct sorted answers for two adjacent ranges answers their
/// union.
proof fn lemma_merge_results_ok(
    a: Seq<ScoreResult>,
    b: Seq<ScoreResult>,
    out: Seq<ScoreResult>,
    q: Seq<char>,
    cs: Seq<String>,
    s: int,
    m: int,
    e: int,
)
    requires
        score_results_ok(a, q, cs, s, m),
        score_results_ok(b, q, cs, m, e),
        s <= m <= e,
        out.to_multiset() == a.to_multiset().add(b.to_multiset()),
    ensures
        score_results_ok(out, q, cs, s, e),
{
    broadcast use group_to_multiset_ensures;
    broadcast use group_multiset_axioms;

    lemma_match_count_split(q, cs, s, m, e);
    assert(out.len() == a.len() + b.len()) by {
        assert(out.to_multiset().len() == a.to_multiset().len() + b.to_multiset().len());
        assert(out.len() == out.to_multiset().len());
        assert(a.len() == a.to_multiset().len());
        assert(b.len() == b.to_multiset().len());
    }
    assert forall|k: int| 0 <= k < out.len() implies s <= (#[trigger] out[k]).candidate_index < e
        && is_match(q, cs[out[k].candidate_index as int]@) && out[k].score@ == score_of(
        q,
        cs[out[k].candidate_index as int]@,
    ) by {
        assert(out.contains(out[k]));
        assert(out.to_multiset().count(out[k]) > 0);
        if a.to_multiset().count(out[k]) > 0 {
            assert(a.contains(out[k]));
            let k0 = choose|k0: int| 0 <= k0 < a.len() && a[k0] == out[k];
        } else {
            assert(b.to_multiset().count(out[k]) > 0);
            assert(b.contains(out[k]));
            let k0 = choose|k0: int| 0 <= k0 < b.len() && b[k0] == out[k];
        }
    }
    assert forall|i: int| s <= i < e && is_match(q, #[trigger] cs[i]@) implies exists|k: int|
        0 <= k < out.len() && (#[trigger] out[k]).candidate_index == i by {
        if i < m {
            let k0 = choose|k0: int| 0 <= k0 < a.len() && (#[trigger] a[k0]).candidate_index == i;
            assert(a.contains(a[k0]));
            assert(a.to_multiset().count(a[k0]) > 0);
            assert(out.to_multiset().count(a[k0]) > 0);
            assert(out.contains(a[k0]));
            let k = choose|k: int| 0 <= k < out.len() && out[k] == a[k0];
            assert(out[k].candidate_index == i);
        } else {
            let k0 = choose|k0: int| 0 <= k0 < b.len() && (#[trigger] b[k0]).candidate_index == i;
            assert(b.contains(b[k0]));
            assert(b.to_multiset().count(b[k0]) > 0);
            assert(out.to_multiset().count(b[k0]) > 0);
            assert(out.contains(b[k0]));
            let k = choose|k: int| 0 <= k < out.len() && out[k] == b[k0];
            assert(out[k].candidate_index == i);
        }
    }
    assert forall|k1: int, k2: int| 0 <= k1 < k2 < out.len() implies out[k1].candidate_index
        != out[k2].candidate_index by {
        if out[k1].candidate_index == out[k2].candidate_index {
            if out[k1] == out[k2] {
                lemma_count_two(out, k1, k2);
                assert(out.to_multiset().count(out[k1]) >= 2);
                assert(a.no_duplicates());
                assert(b.no_duplicates());
                a.lemma_multiset_has_no_duplicates();
                b.lemma_multiset_has_no_duplicates();
                assert(a.to_multiset().count(out[k1]) >= 1 && b.to_multiset().count(out[k1])
                    >= 1) by {
                    if a.to_multiset().count(out[k1]) >= 2 {
                        assert(a.to_multiset().contains(out[k1]));
                    }
                    if b.to_multiset().count(out[k1]) >= 2 {
                        assert(b.to_multiset().contains(out[k1]));
                    }
                }
                assert(a.contains(out[k1]));
                assert(b.contains(out[k1]));
                let ka = choose|ka: int| 0 <= ka < a.len() && a[ka] == out[k1];
                let kb = choose|kb: int| 0 <= kb < b.len() && b[kb] == out[k1];
            } else {
                assert(out.contains(out[k1]));
                assert(out.contains(out[k2]));
                assert(out.to_multiset().count(out[k1]) > 0);
                assert(out.to_multiset().count(out[k2]) > 0);
                if a.to_multiset().count(out[k1]) > 0 && a.to_multiset().count(out[k2]) > 0 {
                    assert(a.contains(out[k1]) && a.contains(out[k2]));
                    let ka = choose|ka: int| 0 <= ka < a.len() && a[ka] == out[k1];
                    let kb = choose|kb: int| 0 <= kb < a.len() && a[kb] == out[k2];
                    assert(ka != kb);
                } else if b.to_multiset().count(out[k1]) > 0 && b.to_multiset().count(out[k2])
                    > 0 {
                    assert(b.contains(out[k1]) && b.contains(out[k2]));
                    let ka = choose|ka: int| 0 <= ka < b.len() && b[ka] == out[k1];
                    let kb = choose|kb: int| 0 <= kb < b.len() && b[kb] == out[k2];
                    assert(ka != kb);
                } else {
                    assert((a.contains(out[k1]) && b.contains(out[k2])) || (a.contains(out[k2])
                        && b.contains(out[k1])));
                }
            }
        }
    }
}

/// Search among a collection of candidates using the given query,
/// returning an ordered collection of results (highest score first).
pub fn search_score(query: &str, candidates: &Vec<String>, parallelism: usize) -> (r:
    ScoreResults)
    ensures
        score_results_ok(r@, query@, candidates@, 0, candidates@.len() as int),
        results_sorted(r@),
{
    let parallelism = calculate_parallelism(candidates.len(), parallelism, query.is_empty());
    if parallelism < 2 {
        return search_worker(query, candidates, 0, candidates.len());
    }
    let per_thread_count = ceil_div(candidates.len(), parallelism);
    proof {
        assert(per_thread_count >= 1) by {
            vstd::arithmetic::div_mod::lemma_div_is_ordered(
                parallelism as int,
                candidates@.len() + parallelism - 1,
                parallelism as int,
            );
            vstd::arithmetic::div_mod::lemma_div_by_self(parallelism as int);
        }
    }
    let mut acc: Vec<ScoreResult> = Vec::new();
    let mut start: usize = 0;
    while start < candidates.len()
        invariant
            start <= candidates@.len(),
            per_thread_count >= 1,
            score_results_ok(acc@, query@, candidates@, 0, start as int),
            results_sorted(acc@),
        decreases candidates@.len() - start,
    {
        let end = if candidates.len() - start <= per_thread_count {
            candidates.len()
        } else {
            start + per_thread_count
        };
        let shard = search_worker(query, candidates, start, end);
        let ghost acc_seq = acc@;
        let ghost shard_seq = shard@;
        let merged = merge_results(acc, shard);
        proof {
            lemma_merge_results_ok(
                acc_seq,
                shard_seq,
                merged@,
                query@,
                candidates@,
                0,
                start as int,
                end as int,
            );
        }
        acc = merged;
        start = end;
    }
    acc
}

/// Search among a collection of candidates using the given query,
/// returning an ordered collection of results (highest score first) with
/// the locations of the query in each candidate.
pub fn search_locate(query: &str, candidates: &Vec<String>, parallelism: usize) -> (r:
    LocateResults)
    ensures
        locate_results_ok(r@, query@, candidates@, 0, candidates@.len() as int),
        locate_results_sorted(r@),
{
    let scored = search_score(query, candidates, parallelism);
    attach_masks(query, candidates, scored)
}

} // verus!
