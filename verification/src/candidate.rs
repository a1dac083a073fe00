//! The plain values that the traversal works on: directory entries as they
//! were listed, scored candidates, and the traversal parameters.

use vstd::prelude::*;

verus! {

/// The result cap that holds where none is configured.
pub const DEFAULT_MAX_RESULTS: usize = 5;

/// Read-only traversal parameters.
#[derive(Clone, Copy, Debug, PartialEq, Eq, Structural)]
pub struct MatchConfig {
    /// How many matches are kept per level. A usable configuration keeps at
    /// least one.
    pub max_results: usize,
    /// Whether entries that are not directories are dropped before scoring.
    pub only_directories: bool,
}

impl MatchConfig {
    /// A configuration under which a traversal can succeed.
    pub open spec fn wf(&self) -> bool {
        self.max_results > 0
    }
}

impl Default for MatchConfig {
    /// The default cap, files and directories alike.
    fn default() -> (config: Self)
        ensures
            config.max_results == DEFAULT_MAX_RESULTS,
            !config.only_directories,
            config.wf(),
    {
        MatchConfig { max_results: DEFAULT_MAX_RESULTS, only_directories: false }
    }
}

/// One entry of a directory, as listed.
#[derive(Clone, Debug, PartialEq, Eq)]
pub struct DirEntry {
    /// The full path of the entry.
    pub path: String,
    /// The base name of the entry, without separators.
    pub name: String,
    /// Whether the entry is itself a directory.
    pub is_dir: bool,
}

/// What a [`DirEntry`] stands for in specifications.
pub struct DirEntryView {
    pub path: Seq<char>,
    pub name: Seq<char>,
    pub is_dir: bool,
}

impl View for DirEntry {
    type V = DirEntryView;

    open spec fn view(&self) -> DirEntryView {
        DirEntryView { path: self.path@, name: self.name@, is_dir: self.is_dir }
    }
}

impl DeepView for DirEntry {
    type V = DirEntryView;

    open spec fn deep_view(&self) -> DirEntryView {
        self@
    }
}

/// A path together with the score that the matcher gave its base name.
#[derive(Clone, Debug, PartialEq, Eq)]
pub struct Candidate {
    pub path: String,
    pub score: i64,
}

/// What a [`Candidate`] stands for in specifications.
pub struct CandidateView {
    pub path: Seq<char>,
    pub score: i64,
}

impl View for Candidate {
    type V = CandidateView;

    open spec fn view(&self) -> CandidateView {
        CandidateView { path: self.path@, score: self.score }
    }
}

impl DeepView for Candidate {
    type V = CandidateView;

    open spec fn deep_view(&self) -> CandidateView {
        self@
    }
}

/// The paths of a sequence of candidates, in the same order.
pub open spec fn paths_of(candidates: Seq<CandidateView>) -> Seq<Seq<char>> {
    candidates.map_values(|c: CandidateView| c.path)
}

} // verus!
