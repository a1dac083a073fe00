//! What becomes of the result of a traversal: which match is emitted, and
//! when the user is asked to pick one.

use crate::text::Number;
use crate::text::chars_of;
use crate::text::lemma_stripped_range;
use crate::text::parsed_number;
use crate::text::read_number;
use crate::text::stripped;
use vstd::prelude::*;

verus! {

/// What the caller does with the matches of a traversal.
#[derive(Clone, Copy, Debug, PartialEq, Eq, Structural)]
pub enum Decision {
    /// There is no match: report the failure.
    NoMatch,
    /// Emit the match at this position of the ranking.
    Emit(usize),
    /// Show the ranking, numbered from one, and ask for one of this many
    /// matches.
    Prompt(usize),
}

/// Why an answer to the prompt selects nothing.
#[derive(Clone, Copy, Debug, PartialEq, Eq, Structural)]
pub enum InvalidSelection {
    /// The answer is not a decimal number.
    NotANumber,
    /// The answer is a number, but not one of the numbers that were offered.
    OutOfRange,
}

/// A single match is emitted without a prompt, whatever `interactive` says.
/// Several matches are offered for selection if `interactive` is set, else
/// the best one is emitted.
pub open spec fn decide_spec(count: usize, interactive: bool) -> Decision {
    if count == 0 {
        Decision::NoMatch
    } else if count > 1 && interactive {
        Decision::Prompt(count)
    } else {
        Decision::Emit(0)
    }
}

/// Decides what to do with `count` ranked matches.
pub fn decide(count: usize, interactive: bool) -> (decision: Decision)
    ensures
        decision == decide_spec(count, interactive),
{
    if count == 0 {
        Decision::NoMatch
    } else if count > 1 && interactive {
        Decision::Prompt(count)
    } else {
        Decision::Emit(0)
    }
}

/// The characters that are trimmed from both ends of an answer: those with
/// the Unicode property `White_Space`.
pub open spec fn is_whitespace(c: char) -> bool {
    ||| '\u{9}' <= c <= '\u{d}'
    ||| c == ' '
    ||| c == '\u{85}'
    ||| c == '\u{a0}'
    ||| c == '\u{1680}'
    ||| '\u{2000}' <= c <= '\u{200a}'
    ||| c == '\u{2028}'
    ||| c == '\u{2029}'
    ||| c == '\u{202f}'
    ||| c == '\u{205f}'
    ||| c == '\u{3000}'
}

/// The characters that are trimmed from an answer.
pub open spec fn whitespace() -> spec_fn(char) -> bool {
    |c: char| is_whitespace(c)
}

/// `text` without the whitespace at both ends.
pub open spec fn trimmed(text: Seq<char>) -> Seq<char> {
    stripped(text, whitespace())
}

/// The position in the ranking that an answer to the prompt selects. The
/// answer, trimmed, must be a number between one and `count`; position zero
/// belongs to answer one.
pub open spec fn selection_spec(answer: Seq<char>, count: usize) -> Result<usize, InvalidSelection> {
    match parsed_number(trimmed(answer)) {
        None => Err(InvalidSelection::NotANumber),
        Some(number) => if 1 <= number <= count {
            Ok((number - 1) as usize)
        } else {
            Err(InvalidSelection::OutOfRange)
        },
    }
}

/// Whether `c` is trimmed from the ends of an answer.
fn char_is_whitespace(c: char) -> (b: bool)
    ensures
        b == is_whitespace(c),
{
    ('\u{9}' <= c && c <= '\u{d}') || c == ' ' || c == '\u{85}' || c == '\u{a0}' || c == '\u{1680}'
        || ('\u{2000}' <= c && c <= '\u{200a}') || c == '\u{2028}' || c == '\u{2029}' || c
        == '\u{202f}' || c == '\u{205f}' || c == '\u{3000}'
}

/// Reads the answer to a prompt that offered `count` matches, numbered from
/// one, and returns the position in the ranking that it selects. Whitespace
/// around the number is ignored. Anything that is not a number, and any
/// number that was not offered, selects nothing.
pub fn resolve_selection(answer: &str, count: usize) -> (choice: Result<usize, InvalidSelection>)
    ensures
        choice == selection_spec(answer@, count),
{
    let chars = chars_of(answer);
    let mut from: usize = 0;
    while from < chars.len() && char_is_whitespace(chars[from])
        invariant
            from <= chars.len(),
            forall|i: int| 0 <= i < from ==> is_whitespace(#[trigger] chars@[i]),
        decreases chars.len() - from,
    {
        from += 1;
    }
    let mut to: usize = chars.len();
    while to > from && char_is_whitespace(chars[to - 1])
        invariant
            from <= to <= chars.len(),
            forall|i: int| to <= i < chars.len() ==> is_whitespace(#[trigger] chars@[i]),
        decreases to,
    {
        to -= 1;
    }
    proof {
        lemma_stripped_range(chars@, whitespace(), from as int, to as int);
    }
    match read_number(&chars, from, to, count) {
        Number::Invalid => Err(InvalidSelection::NotANumber),
        Number::TooLarge => Err(InvalidSelection::OutOfRange),
        Number::Value(number) => if number >= 1 {
            Ok(number - 1)
        } else {
            Err(InvalidSelection::OutOfRange)
        },
    }
}

} // verus!
