//! Ranking of the candidates of one level: a stable sort by descending score
//! and the cut to the result cap.

use crate::candidate::Candidate;
use crate::candidate::CandidateView;
use vstd::prelude::*;

verus! {

/// Where a candidate with `score` joins `ranked`: behind every candidate that
/// scores at least as high, in front of the first one that scores lower.
pub open spec fn insertion_point(ranked: Seq<CandidateView>, score: i64) -> int
    decreases ranked.len(),
{
    if ranked.len() == 0 || ranked.first().score < score {
        0
    } else {
        1 + insertion_point(ranked.drop_first(), score)
    }
}

/// The candidates of `pool` by descending score, candidates of equal score
/// in the order in which they were discovered.
pub open spec fn ranked(pool: Seq<CandidateView>) -> Seq<CandidateView>
    decreases pool.len(),
{
    if pool.len() == 0 {
        Seq::empty()
    } else {
        let front = ranked(pool.drop_last());
        front.insert(insertion_point(front, pool.last().score), pool.last())
    }
}

/// No candidate scores higher than one in front of it.
pub open spec fn is_descending(candidates: Seq<CandidateView>) -> bool {
    forall|i: int, j: int|
        0 <= i <= j < candidates.len() ==> candidates[i].score >= candidates[j].score
}

/// The candidates with the given score, in the order in which they stand.
pub open spec fn with_score(candidates: Seq<CandidateView>, score: i64) -> Seq<CandidateView> {
    candidates.filter(|c: CandidateView| c.score == score)
}

/// `arranged` holds the candidates of `pool` by descending score, and those
/// of any one score in the order in which the pool holds them. There is
/// exactly one such arrangement of a pool, and [`ranked`] is it.
pub open spec fn is_stable_ranking(arranged: Seq<CandidateView>, pool: Seq<CandidateView>) -> bool {
    &&& is_descending(arranged)
    &&& forall|score: i64| #[trigger] with_score(arranged, score) == with_score(pool, score)
}

/// The best `max_results` candidates of `pool`, best first.
pub open spec fn top_ranked(pool: Seq<CandidateView>, max_results: nat) -> Seq<CandidateView> {
    let all = ranked(pool);
    if all.len() <= max_results {
        all
    } else {
        all.take(max_results as int)
    }
}

proof fn lemma_insertion_point_bounds(ranked: Seq<CandidateView>, score: i64)
    ensures
        0 <= insertion_point(ranked, score) <= ranked.len(),
        forall|i: int|
            0 <= i < insertion_point(ranked, score) ==> (#[trigger] ranked[i]).score >= score,
        insertion_point(ranked, score) < ranked.len() ==> ranked[insertion_point(
            ranked,
            score,
        )].score < score,
    decreases ranked.len(),
{
    if ranked.len() == 0 || ranked.first().score < score {
    } else {
        let rest = ranked.drop_first();
        lemma_insertion_point_bounds(rest, score);
        let p = insertion_point(rest, score);
        assert forall|i: int| 0 <= i < p + 1 implies (#[trigger] ranked[i]).score >= score by {
            if i > 0 {
                assert(ranked[i] == rest[i - 1]);
            }
        }
        if p < rest.len() {
            assert(ranked[p + 1] == rest[p]);
        }
    }
}

/// The insertion point is the only position with no lower score in front of
/// it and a lower score at it.
proof fn lemma_insertion_point_unique(ranked: Seq<CandidateView>, score: i64, p: int)
    requires
        0 <= p <= ranked.len(),
        forall|i: int| 0 <= i < p ==> (#[trigger] ranked[i]).score >= score,
        p < ranked.len() ==> ranked[p].score < score,
    ensures
        insertion_point(ranked, score) == p,
{
    lemma_insertion_point_bounds(ranked, score);
    let q = insertion_point(ranked, score);
    if q < p {
        assert(ranked[q].score >= score);
    } else if p < q {
        assert(ranked[p].score >= score);
    }
}

/// Ranking keeps every candidate, as often as it occurs in the pool.
pub proof fn lemma_ranked_permutes(pool: Seq<CandidateView>)
    ensures
        ranked(pool).len() == pool.len(),
        ranked(pool).to_multiset() == pool.to_multiset(),
    decreases pool.len(),
{
    broadcast use vstd::seq_lib::to_multiset_build, vstd::seq_lib::to_multiset_insert;

    if pool.len() == 0 {
        assert(pool =~= Seq::empty());
    } else {
        let front = ranked(pool.drop_last());
        lemma_ranked_permutes(pool.drop_last());
        lemma_insertion_point_bounds(front, pool.last().score);
        assert(pool =~= pool.drop_last().push(pool.last()));
    }
}

/// Ranking sorts by descending score.
pub proof fn lemma_ranked_descending(pool: Seq<CandidateView>)
    ensures
        is_descending(ranked(pool)),
    decreases pool.len(),
{
    if pool.len() > 0 {
        let front = ranked(pool.drop_last());
        let x = pool.last();
        let p = insertion_point(front, x.score);
        lemma_ranked_descending(pool.drop_last());
        lemma_insertion_point_bounds(front, x.score);
        let all = front.insert(p, x);
        assert forall|i: int, j: int| 0 <= i <= j < all.len() implies all[i].score
            >= all[j].score by {
            if j < p {
                assert(all[i] == front[i] && all[j] == front[j]);
            } else if j == p {
                if i < p {
                    assert(all[i] == front[i]);
                }
            } else {
                assert(all[j] == front[j - 1]);
                assert(front[p].score >= front[j - 1].score);
                if i < p {
                    assert(all[i] == front[i]);
                } else if i > p {
                    assert(all[i] == front[i - 1]);
                }
            }
        }
    }
}

/// Ranking is stable: the candidates of any one score stand in the ranking
/// in the order in which they stand in the pool.
pub proof fn lemma_ranked_stable(pool: Seq<CandidateView>, score: i64)
    ensures
        with_score(ranked(pool), score) == with_score(pool, score),
    decreases pool.len(),
{
    let same = |c: CandidateView| c.score == score;
    if pool.len() == 0 {
        assert(pool =~= Seq::empty());
    } else {
        let front = ranked(pool.drop_last());
        let x = pool.last();
        let p = insertion_point(front, x.score);
        lemma_ranked_stable(pool.drop_last(), score);
        lemma_ranked_descending(pool.drop_last());
        lemma_insertion_point_bounds(front, x.score);
        let head = front.take(p);
        let tail = front.skip(p);
        assert(front =~= head + tail);
        assert(front.insert(p, x) =~= head.push(x) + tail);
        Seq::filter_distributes_over_add(head, tail, same);
        Seq::filter_distributes_over_add(head.push(x), tail, same);
        head.lemma_filter_push(x, same);
        assert(pool =~= pool.drop_last().push(x));
        pool.drop_last().lemma_filter_push(x, same);
        if x.score == score {
            assert forall|i: int| 0 <= i < tail.len() implies !same(#[trigger] tail[i]) by {
                assert(tail[i] == front[p + i]);
                assert(front[p].score >= front[p + i].score);
            }
            tail.lemma_all_neg_filter_empty(same);
            assert(head.filter(same) + tail.filter(same) =~= head.filter(same));
            assert(head.filter(same).push(x) + tail.filter(same) =~= head.filter(same).push(x));
        }
    }
}

/// The ranking of a pool is a stable ranking of it.
pub proof fn lemma_ranked_is_stable_ranking(pool: Seq<CandidateView>)
    ensures
        is_stable_ranking(ranked(pool), pool),
{
    lemma_ranked_descending(pool);
    assert forall|score: i64| #[trigger]
        with_score(ranked(pool), score) == with_score(pool, score) by {
        lemma_ranked_stable(pool, score);
    }
}

/// A score of which `candidates` holds a candidate.
proof fn lemma_score_occurs(candidates: Seq<CandidateView>, score: i64) -> (i: int)
    requires
        with_score(candidates, score).len() > 0,
    ensures
        0 <= i < candidates.len(),
        candidates[i].score == score,
{
    let same = |c: CandidateView| c.score == score;
    let found = candidates.filter(same)[0];
    candidates.lemma_filter_pred(same, 0);
    assert(candidates.filter(same).contains(found));
    candidates.lemma_filter_contains_rev(same, found);
    choose|i: int| 0 <= i < candidates.len() && candidates[i] == found
}

/// How the candidates of one score split off the first candidate.
proof fn lemma_with_score_of_first(candidates: Seq<CandidateView>, score: i64)
    requires
        candidates.len() > 0,
    ensures
        with_score(candidates, score) == (if candidates[0].score == score {
            seq![candidates[0]]
        } else {
            Seq::empty()
        }) + with_score(candidates.drop_first(), score),
{
    let same = |c: CandidateView| c.score == score;
    assert(candidates =~= seq![candidates[0]] + candidates.drop_first());
    candidates.drop_first().lemma_filter_prepend(candidates[0], same);
}

/// Two arrangements by descending score that agree on the candidates of
/// every score, order included, are the same arrangement.
pub proof fn lemma_stable_ranking_unique(
    first: Seq<CandidateView>,
    second: Seq<CandidateView>,
    pool: Seq<CandidateView>,
)
    requires
        is_stable_ranking(first, pool),
        is_stable_ranking(second, pool),
    ensures
        first == second,
    decreases first.len(),
{
    if first.len() == 0 {
        if second.len() > 0 {
            let score = second[0].score;
            lemma_with_score_of_first(second, score);
            assert(with_score(second, score).len() > 0);
            assert(with_score(first, score) == with_score(pool, score));
            let i = lemma_score_occurs(first, score);
        }
        assert(first =~= second);
    } else {
        let high = first[0].score;
        lemma_with_score_of_first(first, high);
        assert(with_score(first, high) == with_score(pool, high));
        assert(with_score(second, high) == with_score(pool, high));
        let at = lemma_score_occurs(second, high);
        let other = second[0].score;
        lemma_with_score_of_first(second, other);
        assert(with_score(first, other) == with_score(pool, other));
        assert(with_score(second, other) == with_score(pool, other));
        let back = lemma_score_occurs(first, other);
        assert(second[0].score >= second[at].score);
        assert(first[0].score >= first[back].score);
        assert(high == other);
        let rest_first = first.drop_first();
        let rest_second = second.drop_first();
        let of_first = seq![first[0]] + with_score(rest_first, high);
        let of_second = seq![second[0]] + with_score(rest_second, high);
        assert(of_first == of_second);
        assert(of_first[0] == of_second[0]);
        assert(first[0] == second[0]);
        assert forall|score: i64| #[trigger]
            with_score(rest_first, score) == with_score(rest_second, score) by {
            lemma_with_score_of_first(first, score);
            lemma_with_score_of_first(second, score);
            assert(with_score(first, score) == with_score(pool, score));
            assert(with_score(second, score) == with_score(pool, score));
            if score == high {
                assert(with_score(rest_first, score) =~= of_first.drop_first());
                assert(with_score(rest_second, score) =~= of_second.drop_first());
            } else {
                assert(with_score(rest_first, score) =~= with_score(first, score));
                assert(with_score(rest_second, score) =~= with_score(second, score));
            }
        }
        assert(is_descending(rest_first)) by {
            assert forall|i: int, j: int| 0 <= i <= j < rest_first.len() implies rest_first[i].score
                >= rest_first[j].score by {
                assert(first[i + 1].score >= first[j + 1].score);
            }
        }
        assert(is_descending(rest_second)) by {
            assert forall|i: int, j: int| 0 <= i <= j < rest_second.len() implies rest_second[i].score
                >= rest_second[j].score by {
                assert(second[i + 1].score >= second[j + 1].score);
            }
        }
        lemma_stable_ranking_unique(rest_first, rest_second, rest_second);
        assert(first =~= seq![first[0]] + rest_first);
        assert(second =~= seq![second[0]] + rest_second);
    }
}

/// When a level yields more candidates than the cap allows, exactly the cap
/// survives: the front of the one stable ranking of the pool. No survivor
/// scores lower than a candidate that was dropped, and among candidates of
/// one score those that were discovered first survive.
pub proof fn lemma_truncation_keeps_best(pool: Seq<CandidateView>, max_results: nat)
    requires
        pool.len() > max_results,
    ensures
        top_ranked(pool, max_results).len() == max_results,
        top_ranked(pool, max_results) == ranked(pool).take(max_results as int),
        is_stable_ranking(ranked(pool), pool),
        ranked(pool).to_multiset() == pool.to_multiset(),
        forall|i: int, j: int|
            0 <= i < max_results <= j < pool.len() ==> top_ranked(pool, max_results)[i].score
                >= ranked(pool)[j].score,
{
    lemma_ranked_permutes(pool);
    lemma_ranked_descending(pool);
    lemma_ranked_is_stable_ranking(pool);
}

/// The position at which a candidate with `score` joins `ranked`.
fn find_insertion_point(ranked: &Vec<Candidate>, score: i64) -> (p: usize)
    ensures
        p <= ranked.len(),
        p == insertion_point(ranked.deep_view(), score),
{
    let mut p: usize = 0;
    while p < ranked.len() && ranked[p].score >= score
        invariant
            p <= ranked.len(),
            forall|i: int| 0 <= i < p ==> (#[trigger] ranked.deep_view()[i]).score >= score,
        decreases ranked.len() - p,
    {
        p += 1;
    }
    proof {
        lemma_insertion_point_unique(ranked.deep_view(), score, p as int);
    }
    p
}

/// Sorts the candidates of one level by descending score, keeping candidates
/// of equal score in the order in which they were discovered.
pub fn rank(pool: Vec<Candidate>) -> (sorted: Vec<Candidate>)
    ensures
        sorted.deep_view() == ranked(pool.deep_view()),
        is_stable_ranking(sorted.deep_view(), pool.deep_view()),
{
    let ghost all = pool.deep_view();
    let mut sorted: Vec<Candidate> = Vec::new();
    assert(all.take(0) =~= Seq::empty());
    for candidate in it: pool
        invariant
            it.seq().len() == all.len(),
            forall|i: int| 0 <= i < all.len() ==> (#[trigger] it.seq()[i])@ == all[i],
            sorted.deep_view() == ranked(all.take(it.index() as int)),
    {
        let ghost before = sorted.deep_view();
        let ghost done = it.index() as int;
        let p = find_insertion_point(&sorted, candidate.score);
        proof {
            lemma_ranked_permutes(all.take(done));
            assert(all.take(done + 1).drop_last() =~= all.take(done));
            assert(all.take(done + 1).last() == candidate@);
        }
        sorted.insert(p, candidate);
        assert(sorted.deep_view() =~= before.insert(p as int, candidate@));
    }
    proof {
        assert(all.take(all.len() as int) =~= all);
        lemma_ranked_is_stable_ranking(all);
    }
    sorted
}

/// Ranks the candidates of one level and keeps at most `max_results` of
/// them, best first.
pub fn keep_top(pool: Vec<Candidate>, max_results: usize) -> (kept: Vec<Candidate>)
    ensures
        kept.deep_view() == top_ranked(pool.deep_view(), max_results as nat),
{
    let mut kept = rank(pool);
    kept.truncate(max_results);
    assert(kept.deep_view() =~= top_ranked(pool.deep_view(), max_results as nat));
    kept
}

} // verus!
