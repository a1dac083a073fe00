//! What holds of every traversal, proved over the model of the engine.

use crate::candidate::CandidateView;
use crate::candidate::DirEntryView;
use crate::candidate::MatchConfig;
use crate::candidate::paths_of;
use crate::ranking::is_descending;
use crate::ranking::is_stable_ranking;
use crate::ranking::lemma_ranked_descending;
use crate::ranking::lemma_ranked_is_stable_ranking;
use crate::ranking::lemma_ranked_permutes;
use crate::ranking::ranked;
use crate::ranking::top_ranked;
use crate::traversal::DirListingView;
use crate::traversal::TraversalView;
use crate::traversal::frontier_at;
use crate::traversal::lemma_empty_frontier_stays_empty;
use crate::traversal::level_matches;
use crate::traversal::level_pool;
use crate::traversal::matches_in;
use crate::traversal::traverse_spec;
use vstd::prelude::*;

verus! {

/// The candidates that level `level` of a traversal pools, before ranking.
pub open spec fn pool_at(
    listings: Seq<DirListingView>,
    start_dir: Seq<char>,
    patterns: Seq<Seq<char>>,
    config: MatchConfig,
    level: nat,
) -> Seq<CandidateView> {
    level_pool(
        patterns[level as int],
        frontier_at(listings, start_dir, patterns, config, level),
        listings,
        config.only_directories,
    )
}

/// What is kept of a pool is in descending order, holds no more than the
/// cap, and holds something whenever the pool does and the cap allows it.
pub proof fn lemma_top_ranked_bounds(pool: Seq<CandidateView>, max_results: nat)
    ensures
        is_descending(top_ranked(pool, max_results)),
        top_ranked(pool, max_results).len() <= max_results,
        top_ranked(pool, max_results).len() <= pool.len(),
        pool.len() > 0 && max_results > 0 ==> top_ranked(pool, max_results).len() > 0,
{
    lemma_ranked_permutes(pool);
    lemma_ranked_descending(pool);
}

/// Behind every level the frontier holds no more paths than the result cap.
pub proof fn lemma_frontier_within_cap(
    listings: Seq<DirListingView>,
    start_dir: Seq<char>,
    patterns: Seq<Seq<char>>,
    config: MatchConfig,
    level: nat,
)
    requires
        level > 0,
    ensures
        frontier_at(listings, start_dir, patterns, config, level).len() <= config.max_results,
{
    lemma_top_ranked_bounds(
        pool_at(listings, start_dir, patterns, config, (level - 1) as nat),
        config.max_results as nat,
    );
}

/// A level that pools more candidates than the cap hands exactly the cap on
/// to the next level: the front of the one stable ranking of its pool. No
/// path that is kept scores lower than one that is dropped, and of the
/// candidates of one score those that were discovered first are kept.
pub proof fn lemma_level_keeps_best(
    listings: Seq<DirListingView>,
    start_dir: Seq<char>,
    patterns: Seq<Seq<char>>,
    config: MatchConfig,
    level: nat,
)
    requires
        pool_at(listings, start_dir, patterns, config, level).len() > config.max_results,
    ensures
        ({
            let pool = pool_at(listings, start_dir, patterns, config, level);
            let next = frontier_at(listings, start_dir, patterns, config, level + 1);
            &&& next.len() == config.max_results
            &&& next == paths_of(ranked(pool).take(config.max_results as int))
            &&& is_stable_ranking(ranked(pool), pool)
            &&& ranked(pool).to_multiset() == pool.to_multiset()
            &&& forall|i: int, j: int|
                0 <= i < config.max_results <= j < pool.len() ==> ranked(pool)[i].score >= ranked(
                    pool,
                )[j].score
        }),
{
    let pool = pool_at(listings, start_dir, patterns, config, level);
    lemma_ranked_permutes(pool);
    lemma_ranked_descending(pool);
    lemma_ranked_is_stable_ranking(pool);
}

/// If every level pools at least one candidate, the traversal succeeds. Its
/// result is not empty, no longer than the cap, and holds the paths of the
/// matches of the last level by descending score.
pub proof fn lemma_traversal_succeeds(
    listings: Seq<DirListingView>,
    start_dir: Seq<char>,
    patterns: Seq<Seq<char>>,
    config: MatchConfig,
)
    requires
        patterns.len() > 0,
        config.wf(),
        forall|level: nat|
            level < patterns.len() ==> (#[trigger] pool_at(
                listings,
                start_dir,
                patterns,
                config,
                level,
            )).len() > 0,
    ensures
        ({
            let last = level_matches(
                patterns.last(),
                frontier_at(listings, start_dir, patterns, config, (patterns.len() - 1) as nat),
                listings,
                config,
            );
            &&& traverse_spec(listings, start_dir, patterns, config) == Some(paths_of(last))
            &&& 0 < last.len() <= config.max_results
            &&& is_descending(last)
        }),
{
    let last_level = (patterns.len() - 1) as nat;
    let pool = pool_at(listings, start_dir, patterns, config, last_level);
    lemma_top_ranked_bounds(pool, config.max_results as nat);
}

/// If some level pools no candidate, the traversal has no match, however
/// many matches the levels in front of it had.
pub proof fn lemma_level_without_match_fails(
    listings: Seq<DirListingView>,
    start_dir: Seq<char>,
    patterns: Seq<Seq<char>>,
    config: MatchConfig,
    level: nat,
)
    requires
        level < patterns.len(),
        pool_at(listings, start_dir, patterns, config, level).len() == 0,
    ensures
        traverse_spec(listings, start_dir, patterns, config) is None,
{
    lemma_top_ranked_bounds(
        pool_at(listings, start_dir, patterns, config, level),
        config.max_results as nat,
    );
    lemma_empty_frontier_stays_empty(
        listings,
        start_dir,
        patterns,
        config,
        level + 1,
        patterns.len(),
    );
}

/// A traversal whose level ends with an empty pool fails at once.
pub proof fn lemma_empty_level_fails(state: TraversalView, entries: Seq<DirEntryView>)
    requires
        state.wf(),
        state.is_running(),
        state.cursor + 1 == state.frontier.len(),
        state.pool.len() == 0,
        matches_in(
            state.patterns[state.level as int],
            entries,
            state.config.only_directories,
        ).len() == 0,
    ensures
        state.supplied(entries).failed,
        state.supplied(entries).wf(),
{
    let pool = state.pool + matches_in(
        state.patterns[state.level as int],
        entries,
        state.config.only_directories,
    );
    lemma_top_ranked_bounds(pool, state.config.max_results as nat);
}

/// No pattern is skipped: a listing moves a traversal on by one level at
/// most, and only behind the last directory of the frontier, with at least
/// one match to search at the next level.
pub proof fn lemma_level_advances_on_match_only(state: TraversalView, entries: Seq<DirEntryView>)
    requires
        state.wf(),
    ensures
        ({
            let next = state.supplied(entries);
            ||| next.level == state.level
            ||| {
                &&& next.level == state.level + 1
                &&& state.cursor + 1 == state.frontier.len()
                &&& 0 < next.frontier.len() <= state.config.max_results
                &&& !next.failed
            }
        }),
{
    if state.is_running() {
        let pool = state.pool + matches_in(
            state.patterns[state.level as int],
            entries,
            state.config.only_directories,
        );
        lemma_top_ranked_bounds(pool, state.config.max_results as nat);
    }
}

/// A failed traversal stays failed: it wants no further listing, a listing
/// supplied all the same changes nothing, and its result is no match. The
/// patterns behind the failed level are never looked at.
pub proof fn lemma_failure_is_final(state: TraversalView, entries: Seq<DirEntryView>)
    requires
        state.failed,
    ensures
        state.wanted() is None,
        state.supplied(entries) == state,
        state.outcome() is None,
{
}

/// Every step of a traversal keeps its invariant, so that the frontier never
/// exceeds the result cap and is never empty while the traversal goes on.
pub proof fn lemma_supplied_keeps_invariant(state: TraversalView, entries: Seq<DirEntryView>)
    requires
        state.wf(),
    ensures
        state.supplied(entries).wf(),
{
    if state.is_running() {
        let pool = state.pool + matches_in(
            state.patterns[state.level as int],
            entries,
            state.config.only_directories,
        );
        lemma_top_ranked_bounds(pool, state.config.max_results as nat);
    }
}

} // verus!
