//! The traversal engine: one pattern per level, every directory of the
//! current frontier searched for entries that match the level's pattern, the
//! matches of the level ranked and cut to the result cap, and the survivors
//! taken as the next frontier.
//!
//! The engine performs no I/O. [`Traversal`] names the directory whose
//! listing it needs next and is handed that listing; whoever drives it reads
//! the directory. [`traverse_patterns`] drives it over listings that were
//! recorded beforehand.

use crate::candidate::Candidate;
use crate::candidate::CandidateView;
use crate::candidate::DirEntry;
use crate::candidate::DirEntryView;
use crate::candidate::MatchConfig;
use crate::candidate::paths_of;
use crate::matcher::score;
use crate::matcher::score_spec;
use crate::ranking::keep_top;
use crate::ranking::ranked;
use crate::ranking::top_ranked;
use vstd::prelude::*;

verus! {

/// What one listed entry contributes to its level: nothing if it is filtered
/// out or its name does not match, else its path with the score of its name.
pub open spec fn candidate_of(
    pattern: Seq<char>,
    entry: DirEntryView,
    only_directories: bool,
) -> Option<CandidateView> {
    if only_directories && !entry.is_dir {
        None
    } else {
        match score_spec(pattern, entry.name) {
            Some(score) => Some(CandidateView { path: entry.path, score }),
            None => None,
        }
    }
}

/// The candidates that one directory listing contributes, in listing order.
pub open spec fn matches_in(
    pattern: Seq<char>,
    entries: Seq<DirEntryView>,
    only_directories: bool,
) -> Seq<CandidateView> {
    entries.filter_map(|entry: DirEntryView| candidate_of(pattern, entry, only_directories))
}

/// Scores the entries of one directory against `pattern` and returns those
/// that match, in listing order. With `only_directories` set, entries that
/// are not directories are dropped unscored.
pub fn find_matches(pattern: &str, entries: &Vec<DirEntry>, config: &MatchConfig) -> (found: Vec<
    Candidate,
>)
    ensures
        found.deep_view() == matches_in(pattern@, entries.deep_view(), config.only_directories),
{
    let ghost all = entries.deep_view();
    let ghost pick = |entry: DirEntryView| candidate_of(pattern@, entry, config.only_directories);
    let mut found: Vec<Candidate> = Vec::new();
    let mut i: usize = 0;
    assert(all.take(0) =~= Seq::empty());
    while i < entries.len()
        invariant
            i <= entries.len(),
            all == entries.deep_view(),
            pick == |entry: DirEntryView| candidate_of(pattern@, entry, config.only_directories),
            found.deep_view() == all.take(i as int).filter_map(pick),
        decreases entries.len() - i,
    {
        let entry = &entries[i];
        let ghost before = found.deep_view();
        proof {
            all.lemma_filter_map_take_succ(pick, i as int);
            assert(all[i as int] == entry@);
        }
        if !config.only_directories || entry.is_dir {
            if let Some(score) = score(pattern, entry.name.as_str()) {
                found.push(Candidate { path: entry.path.clone(), score });
                assert(found.deep_view() =~= before + seq![pick(entry@)->0]);
            }
        }
        i += 1;
    }
    assert(all.take(all.len() as int) =~= all);
    found
}

/// The listing of one directory, recorded ahead of a traversal.
#[derive(Debug, PartialEq, Eq)]
pub struct DirListing {
    /// The path of the directory that was listed.
    pub path: String,
    /// Its direct entries, in the order in which they were discovered.
    pub entries: Vec<DirEntry>,
}

/// What a [`DirListing`] stands for in specifications.
pub struct DirListingView {
    pub path: Seq<char>,
    pub entries: Seq<DirEntryView>,
}

impl View for DirListing {
    type V = DirListingView;

    open spec fn view(&self) -> DirListingView {
        DirListingView { path: self.path@, entries: self.entries.deep_view() }
    }
}

impl DeepView for DirListing {
    type V = DirListingView;

    open spec fn deep_view(&self) -> DirListingView {
        self@
    }
}

/// The entries recorded for `dir`: those of the first listing with that
/// path. A directory without a listing has no entries, as one that does not
/// exist or cannot be read.
pub open spec fn listing_of(listings: Seq<DirListingView>, dir: Seq<char>) -> Seq<DirEntryView>
    decreases listings.len(),
{
    if listings.len() == 0 {
        Seq::empty()
    } else if listings.first().path == dir {
        listings.first().entries
    } else {
        listing_of(listings.drop_first(), dir)
    }
}

/// All candidates of one level, pooled over the directories of the frontier
/// in frontier order and, within a directory, in listing order.
pub open spec fn level_pool(
    pattern: Seq<char>,
    frontier: Seq<Seq<char>>,
    listings: Seq<DirListingView>,
    only_directories: bool,
) -> Seq<CandidateView>
    decreases frontier.len(),
{
    if frontier.len() == 0 {
        Seq::empty()
    } else {
        level_pool(pattern, frontier.drop_last(), listings, only_directories) + matches_in(
            pattern,
            listing_of(listings, frontier.last()),
            only_directories,
        )
    }
}

/// The matches that survive one level: the pool of the level, ranked and
/// cut to the result cap.
pub open spec fn level_matches(
    pattern: Seq<char>,
    frontier: Seq<Seq<char>>,
    listings: Seq<DirListingView>,
    config: MatchConfig,
) -> Seq<CandidateView> {
    top_ranked(
        level_pool(pattern, frontier, listings, config.only_directories),
        config.max_results as nat,
    )
}

/// The frontier in front of level `level`: the start directory alone in
/// front of the first level, else the paths of the matches that survived
/// the level before.
pub open spec fn frontier_at(
    listings: Seq<DirListingView>,
    start_dir: Seq<char>,
    patterns: Seq<Seq<char>>,
    config: MatchConfig,
    level: nat,
) -> Seq<Seq<char>>
    decreases level,
{
    if level == 0 {
        seq![start_dir]
    } else {
        paths_of(
            level_matches(
                patterns[level - 1],
                frontier_at(listings, start_dir, patterns, config, (level - 1) as nat),
                listings,
                config,
            ),
        )
    }
}

/// The result of a traversal over recorded listings. Without patterns it is
/// the empty sequence. Otherwise it is the frontier behind the last level,
/// or no match if that frontier is empty, which it is as soon as one level
/// has no match.
pub open spec fn traverse_spec(
    listings: Seq<DirListingView>,
    start_dir: Seq<char>,
    patterns: Seq<Seq<char>>,
    config: MatchConfig,
) -> Option<Seq<Seq<char>>> {
    if patterns.len() == 0 {
        Some(Seq::empty())
    } else {
        let last = frontier_at(listings, start_dir, patterns, config, patterns.len());
        if last.len() == 0 {
            None
        } else {
            Some(last)
        }
    }
}

/// The state of a [`Traversal`], as specifications see it.
pub struct TraversalView {
    /// One pattern per level.
    pub patterns: Seq<Seq<char>>,
    pub config: MatchConfig,
    /// How many patterns have been consumed.
    pub level: nat,
    /// The directories to search at this level.
    pub frontier: Seq<Seq<char>>,
    /// How many directories of the frontier have been searched.
    pub cursor: nat,
    /// The candidates found at this level so far.
    pub pool: Seq<CandidateView>,
    /// Whether a level ended without a match.
    pub failed: bool,
}

impl TraversalView {
    /// Whether another directory listing is wanted.
    pub open spec fn is_running(self) -> bool {
        !self.failed && self.level < self.patterns.len()
    }

    /// The invariant of a traversal. Behind the first level the frontier
    /// never exceeds the result cap, and it is empty only after a failure or
    /// without patterns.
    pub open spec fn wf(self) -> bool {
        &&& self.level <= self.patterns.len()
        &&& self.failed ==> self.level < self.patterns.len() && self.frontier.len() == 0
        &&& self.patterns.len() == 0 ==> self.frontier.len() == 0
        &&& !self.failed && self.patterns.len() > 0 ==> self.frontier.len() >= 1
        &&& self.level == 0 ==> self.frontier.len() <= 1
        &&& self.level > 0 ==> self.frontier.len() <= self.config.max_results
        &&& self.is_running() ==> self.cursor < self.frontier.len()
        &&& !self.is_running() ==> self.cursor == 0 && self.pool.len() == 0
    }

    /// The directory whose listing is wanted next, if any.
    pub open spec fn wanted(self) -> Option<Seq<char>> {
        if self.is_running() {
            Some(self.frontier[self.cursor as int])
        } else {
            None
        }
    }

    /// The result: the last frontier once every pattern is consumed, no
    /// match after a failure or while a listing is still wanted.
    pub open spec fn outcome(self) -> Option<Seq<Seq<char>>> {
        if self.failed || self.is_running() {
            None
        } else {
            Some(self.frontier)
        }
    }

    /// The state after the wanted listing has been supplied. The matches of
    /// the listing join the pool. Behind the last directory of the frontier
    /// the pool is ranked and cut: if nothing is left the traversal has
    /// failed for good, else what is left is the frontier of the next level.
    pub open spec fn supplied(self, entries: Seq<DirEntryView>) -> TraversalView {
        if !self.is_running() {
            self
        } else {
            let pool = self.pool + matches_in(
                self.patterns[self.level as int],
                entries,
                self.config.only_directories,
            );
            if self.cursor + 1 < self.frontier.len() {
                TraversalView { cursor: self.cursor + 1, pool, ..self }
            } else {
                let kept = top_ranked(pool, self.config.max_results as nat);
                if kept.len() == 0 {
                    TraversalView {
                        frontier: Seq::empty(),
                        cursor: 0,
                        pool: Seq::empty(),
                        failed: true,
                        ..self
                    }
                } else {
                    TraversalView {
                        level: self.level + 1,
                        frontier: paths_of(kept),
                        cursor: 0,
                        pool: Seq::empty(),
                        ..self
                    }
                }
            }
        }
    }
}

/// The state in which a traversal begins: the start directory is the whole
/// frontier, unless there is no pattern and so nothing to search.
pub open spec fn begin(start_dir: Seq<char>, patterns: Seq<Seq<char>>, config: MatchConfig) -> TraversalView {
    TraversalView {
        patterns,
        config,
        level: 0,
        frontier: if patterns.len() == 0 {
            Seq::empty()
        } else {
            seq![start_dir]
        },
        cursor: 0,
        pool: Seq::empty(),
        failed: false,
    }
}

/// A traversal in progress. It asks for one directory listing at a time and
/// never reads a directory itself.
pub struct Traversal<'a> {
    patterns: &'a [String],
    config: MatchConfig,
    level: usize,
    frontier: Vec<String>,
    cursor: usize,
    pool: Vec<Candidate>,
    failed: bool,
}

impl<'a> View for Traversal<'a> {
    type V = TraversalView;

    closed spec fn view(&self) -> TraversalView {
        TraversalView {
            patterns: self.patterns.deep_view(),
            config: self.config,
            level: self.level as nat,
            frontier: self.frontier.deep_view(),
            cursor: self.cursor as nat,
            pool: self.pool.deep_view(),
            failed: self.failed,
        }
    }
}

/// The paths of `candidates`, in the same order.
fn into_paths(candidates: Vec<Candidate>) -> (paths: Vec<String>)
    ensures
        paths.deep_view() == paths_of(candidates.deep_view()),
{
    let ghost all = candidates.deep_view();
    let mut paths: Vec<String> = Vec::new();
    for candidate in it: candidates
        invariant
            it.seq().len() == all.len(),
            forall|i: int| 0 <= i < all.len() ==> (#[trigger] it.seq()[i])@ == all[i],
            paths.deep_view() == paths_of(all.take(it.index() as int)),
    {
        let ghost before = paths.deep_view();
        let ghost done = it.index() as int;
        paths.push(candidate.path);
        assert(paths.deep_view() =~= before.push(candidate@.path));
        assert(paths_of(all.take(done + 1)) =~= paths_of(all.take(done)).push(all[done].path));
    }
    assert(all.take(all.len() as int) =~= all);
    paths
}

impl<'a> Traversal<'a> {
    #[verifier::type_invariant]
    spec fn inv(self) -> bool {
        self@.wf()
    }

    /// Begins a traversal from `start_dir` with one pattern per level.
    pub fn new(start_dir: String, patterns: &'a [String], config: MatchConfig) -> (traversal: Self)
        ensures
            traversal@ == begin(start_dir@, patterns.deep_view(), config),
            traversal@.wf(),
    {
        let mut frontier: Vec<String> = Vec::new();
        if patterns.len() > 0 {
            frontier.push(start_dir);
        }
        let traversal = Traversal {
            patterns,
            config,
            level: 0,
            frontier,
            cursor: 0,
            pool: Vec::new(),
            failed: false,
        };
        assert(traversal@.frontier =~= begin(start_dir@, patterns.deep_view(), config).frontier);
        assert(traversal@.pool =~= Seq::empty());
        traversal
    }

    /// The directory whose listing must be supplied next, or none once the
    /// traversal has ended.
    pub fn next_directory(&self) -> (dir: Option<&String>)
        ensures
            self@.wf(),
            dir.deep_view() == self@.wanted(),
    {
        proof {
            use_type_invariant(self);
        }
        if !self.failed && self.level < self.patterns.len() {
            Some(&self.frontier[self.cursor])
        } else {
            None
        }
    }

    /// Takes the listing of the directory that [`Self::next_directory`]
    /// names. A directory that does not exist, is no directory or cannot be
    /// read is supplied as an empty listing. Once the traversal has ended a
    /// listing changes nothing.
    pub fn supply(self, entries: &Vec<DirEntry>) -> (next: Self)
        ensures
            self@.wf(),
            next@ == self@.supplied(entries.deep_view()),
            next@.wf(),
    {
        proof {
            use_type_invariant(&self);
        }
        if self.failed || self.level >= self.patterns.len() {
            return self;
        }
        let ghost before = self@;
        let Traversal { patterns, config, level, frontier, cursor, mut pool, failed } = self;
        let mut found = find_matches(patterns[level].as_str(), entries, &config);
        pool.append(&mut found);
        assert(pool.deep_view() =~= before.pool + matches_in(
            before.patterns[before.level as int],
            entries.deep_view(),
            before.config.only_directories,
        ));
        if cursor + 1 < frontier.len() {
            Traversal { patterns, config, level, frontier, cursor: cursor + 1, pool, failed }
        } else {
            let kept = keep_top(pool, config.max_results);
            if kept.len() == 0 {
                let next = Traversal {
                    patterns,
                    config,
                    level,
                    frontier: Vec::new(),
                    cursor: 0,
                    pool: Vec::new(),
                    failed: true,
                };
                assert(next@.frontier =~= Seq::empty());
                assert(next@.pool =~= Seq::empty());
                next
            } else {
                let next = Traversal {
                    patterns,
                    config,
                    level: level + 1,
                    frontier: into_paths(kept),
                    cursor: 0,
                    pool: Vec::new(),
                    failed,
                };
                assert(next@.pool =~= Seq::empty());
                next
            }
        }
    }

    /// Ends the traversal and hands out its result: the matches of the last
    /// level, best first, or none if a level had no match or a listing is
    /// still wanted. Without patterns the result is empty.
    pub fn into_matches(self) -> (result: Option<Vec<String>>)
        ensures
            self@.wf(),
            result.deep_view() == self@.outcome(),
    {
        proof {
            use_type_invariant(&self);
        }
        if self.failed || self.level < self.patterns.len() {
            None
        } else {
            Some(self.frontier)
        }
    }
}

/// The entries recorded for `dir`, if there is a listing of it.
fn find_listing<'b>(listings: &'b [DirListing], dir: &String) -> (entries: Option<&'b Vec<DirEntry>>)
    ensures
        match entries {
            Some(found) => found.deep_view() == listing_of(listings.deep_view(), dir@),
            None => listing_of(listings.deep_view(), dir@) == Seq::<DirEntryView>::empty(),
        },
{
    let ghost all = listings.deep_view();
    let mut i: usize = 0;
    assert(all.skip(0) =~= all);
    while i < listings.len()
        invariant
            i <= listings.len(),
            all == listings.deep_view(),
            listing_of(all, dir@) == listing_of(all.skip(i as int), dir@),
        decreases listings.len() - i,
    {
        assert(all.skip(i as int).first() == listings[i as int]@);
        if listings[i].path == *dir {
            return Some(&listings[i].entries);
        }
        assert(all.skip(i as int).drop_first() =~= all.skip(i as int + 1));
        i += 1;
    }
    None
}

/// Once a frontier is empty, every frontier behind it is empty too.
pub proof fn lemma_empty_frontier_stays_empty(
    listings: Seq<DirListingView>,
    start_dir: Seq<char>,
    patterns: Seq<Seq<char>>,
    config: MatchConfig,
    level: nat,
    later: nat,
)
    requires
        level <= later,
        frontier_at(listings, start_dir, patterns, config, level).len() == 0,
    ensures
        frontier_at(listings, start_dir, patterns, config, later).len() == 0,
    decreases later,
{
    if level < later {
        lemma_empty_frontier_stays_empty(
            listings,
            start_dir,
            patterns,
            config,
            level,
            (later - 1) as nat,
        );
        let before = frontier_at(listings, start_dir, patterns, config, (later - 1) as nat);
        let pool = level_pool(patterns[later - 1], before, listings, config.only_directories);
        assert(pool.len() == 0);
        assert(ranked(pool).len() == 0);
    }
}

/// Finds the paths that match `patterns`, one pattern per level below
/// `start_dir`, in the directory listings recorded in `listings`. Returns the
/// matches of the last level, best first, or none as soon as a level has no
/// match. Without patterns nothing is searched and the result is empty.
pub fn traverse_patterns(
    start_dir: String,
    patterns: &[String],
    config: &MatchConfig,
    listings: &[DirListing],
) -> (result: Option<Vec<String>>)
    ensures
        result.deep_view() == traverse_spec(
            listings.deep_view(),
            start_dir@,
            patterns.deep_view(),
            *config,
        ),
{
    let ghost recorded = listings.deep_view();
    let ghost wanted = patterns.deep_view();
    let ghost start = start_dir@;
    let unlisted: Vec<DirEntry> = Vec::new();
    let mut traversal = Traversal::new(start_dir, patterns, *config);
    assert(traversal@.frontier.take(0) =~= Seq::empty());
    loop
        invariant
            recorded == listings.deep_view(),
            wanted == patterns.deep_view(),
            unlisted.deep_view() == Seq::<DirEntryView>::empty(),
            traversal@.wf(),
            traversal@.patterns == wanted,
            traversal@.config == *config,
            wanted.len() == 0 ==> traversal@ == begin(start, wanted, *config),
            wanted.len() > 0 && !traversal@.failed ==> traversal@.frontier == frontier_at(
                recorded,
                start,
                wanted,
                *config,
                traversal@.level,
            ),
            traversal@.failed ==> frontier_at(
                recorded,
                start,
                wanted,
                *config,
                traversal@.level + 1,
            ).len() == 0,
            traversal@.is_running() ==> traversal@.pool == level_pool(
                wanted[traversal@.level as int],
                traversal@.frontier.take(traversal@.cursor as int),
                recorded,
                config.only_directories,
            ),
        ensures
            !traversal@.is_running(),
        decreases
            wanted.len() - traversal@.level,
            traversal@.frontier.len() - traversal@.cursor,
    {
        let entries = match traversal.next_directory() {
            Some(dir) => match find_listing(listings, dir) {
                Some(found) => found,
                None => &unlisted,
            },
            None => { break ; },
        };
        let ghost before = traversal@;
        proof {
            let searched = before.frontier.take(before.cursor as int + 1);
            assert(searched.drop_last() =~= before.frontier.take(before.cursor as int));
            assert(searched.last() == before.frontier[before.cursor as int]);
            if before.cursor + 1 == before.frontier.len() {
                assert(searched =~= before.frontier);
            }
        }
        traversal = traversal.supply(entries);
        assert(traversal@.frontier.take(0) =~= Seq::empty());
    }
    proof {
        if traversal@.failed {
            lemma_empty_frontier_stays_empty(
                recorded,
                start,
                wanted,
                *config,
                traversal@.level + 1,
                wanted.len(),
            );
        }
    }
    traversal.into_matches()
}

} // verus!
