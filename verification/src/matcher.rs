//! Scoring of one entry name against one pattern.

use fuzzy_matcher::skim::SkimMatcherV2;
use fuzzy_matcher::FuzzyMatcher;
use vstd::prelude::*;

verus! {

/// Longest pattern or name, in characters, that is ever scored. Anything
/// longer is treated as not matching, which keeps the scorer's 32-bit
/// arithmetic far away from its limits.
pub const MAX_SCORED_CHARS: usize = 65536;

/// The code point of `c` with ASCII upper-case letters mapped to lower case.
pub open spec fn ascii_folded(c: char) -> int {
    if 'A' <= c <= 'Z' {
        c as int + 32
    } else {
        c as int
    }
}

/// Whether `s` holds an ASCII upper-case letter. A pattern that does is
/// matched case-sensitively, any other pattern ignores ASCII case.
pub open spec fn has_ascii_upper(s: Seq<char>) -> bool {
    exists|i: int| 0 <= i < s.len() && 'A' <= #[trigger] s[i] <= 'Z'
}

/// Whether the name character `c` satisfies the pattern character `p`.
pub open spec fn chars_match(c: char, p: char, case_sensitive: bool) -> bool {
    if case_sensitive {
        c == p
    } else {
        ascii_folded(c) == ascii_folded(p)
    }
}

/// `at` places the characters of `pattern`, in order, on matching characters
/// of `name`.
pub open spec fn is_embedding(at: Seq<int>, pattern: Seq<char>, name: Seq<char>) -> bool {
    &&& at.len() == pattern.len()
    &&& forall|i: int|
        0 <= i < at.len() ==> 0 <= #[trigger] at[i] < name.len() && chars_match(
            name[at[i]],
            pattern[i],
            has_ascii_upper(pattern),
        )
    &&& forall|i: int, j: int| 0 <= i < j < at.len() ==> #[trigger] at[i] < #[trigger] at[j]
}

/// Whether the characters of `pattern` occur in `name` as a subsequence, not
/// necessarily contiguous. The empty pattern occurs in every name.
pub open spec fn is_fuzzy_subsequence(pattern: Seq<char>, name: Seq<char>) -> bool {
    exists|at: Seq<int>| is_embedding(at, pattern, name)
}

/// The relevance that the skim scorer gives to a non-empty `pattern` that
/// occurs in `name`. Higher is better; only the order of the values of one
/// pattern carries meaning.
///
/// The scorer aligns the pattern with the name and takes the best
/// alignment. Every matched character counts 16, less 2 where only the
/// case differs. A character at the head of the name or of a word in it
/// earns a bonus, and so does one that continues a run of matched
/// characters; skipped characters between matches cost a little each. So a
/// pattern scores highest on names that begin with it: `ap` gives `apple`
/// and `apricot` the same relevance, 51, `a_long_path` 45 and `snapshot`
/// 35.
pub uninterp spec fn skim_relevance(name: Seq<char>, pattern: Seq<char>) -> i64;

/// The score of `name` against `pattern`: none unless the pattern occurs in
/// the name as a subsequence and both are short enough to be scored. The
/// empty pattern matches every name with the baseline score 0.
pub open spec fn score_spec(pattern: Seq<char>, name: Seq<char>) -> Option<i64> {
    if pattern.len() > MAX_SCORED_CHARS || name.len() > MAX_SCORED_CHARS {
        None
    } else if !is_fuzzy_subsequence(pattern, name) {
        None
    } else if pattern.len() == 0 {
        Some(0i64)
    } else {
        Some(skim_relevance(name, pattern))
    }
}

/// Calls `fuzzy_match` of `fuzzy_matcher::skim::SkimMatcherV2` in its default
/// configuration (smart case, no element limit), on a matcher of its own.
///
/// Trusted, not proved. The crate answers 0 for the empty pattern before it
/// looks at the name. Otherwise it first scans the name from the left for
/// the characters of the pattern, one after the other, comparing exactly
/// if the pattern holds an ASCII upper-case letter and without regard to
/// ASCII case if not, and answers none if the scan does not find them all:
/// which is to say, if the pattern is no subsequence of the name. Past the
/// scan it always answers, with a relevance that depends on the two texts
/// alone and goes by the name [`skim_relevance`] here. The bounds keep the
/// crate's 32-bit scores from overflowing.
#[verifier::external_body]
fn skim_fuzzy_match(name: &str, pattern: &str) -> (r: Option<i64>)
    requires
        name@.len() <= MAX_SCORED_CHARS,
        pattern@.len() <= MAX_SCORED_CHARS,
    ensures
        r is Some <==> is_fuzzy_subsequence(pattern@, name@),
        pattern@.len() == 0 ==> r == Some(0i64),
        r is Some && pattern@.len() > 0 ==> r == Some(skim_relevance(name@, pattern@)),
{
    SkimMatcherV2::default().fuzzy_match(name, pattern)
}

/// Scores `name` against `pattern`.
pub fn score(pattern: &str, name: &str) -> (r: Option<i64>)
    ensures
        r == score_spec(pattern@, name@),
{
    if pattern.unicode_len() > MAX_SCORED_CHARS || name.unicode_len() > MAX_SCORED_CHARS {
        None
    } else {
        skim_fuzzy_match(name, pattern)
    }
}

/// A name always matches itself: the score of a name against a pattern equal
/// to it is never absent.
pub proof fn lemma_name_matches_itself(name: Seq<char>)
    requires
        name.len() <= MAX_SCORED_CHARS,
    ensures
        score_spec(name, name) is Some,
{
    let at = Seq::new(name.len(), |i: int| i);
    assert(is_embedding(at, name, name));
}

/// A pattern with a character that no character of the name satisfies does
/// not match that name.
pub proof fn lemma_absent_char_no_match(pattern: Seq<char>, name: Seq<char>, i: int)
    requires
        0 <= i < pattern.len(),
        forall|j: int|
            0 <= j < name.len() ==> !chars_match(
                #[trigger] name[j],
                pattern[i],
                has_ascii_upper(pattern),
            ),
    ensures
        score_spec(pattern, name) is None,
{
    if is_fuzzy_subsequence(pattern, name) {
        let at = choose|at: Seq<int>| is_embedding(at, pattern, name);
        assert(chars_match(name[at[i]], pattern[i], has_ascii_upper(pattern)));
    }
}

} // verus!
