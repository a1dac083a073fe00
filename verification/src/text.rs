//! Small tools for texts given character by character.

use vstd::prelude::*;

verus! {

/// `text` without the characters at its front that `strip` accepts.
pub open spec fn without_front(text: Seq<char>, strip: spec_fn(char) -> bool) -> Seq<char>
    decreases text.len(),
{
    if text.len() > 0 && strip(text.first()) {
        without_front(text.drop_first(), strip)
    } else {
        text
    }
}

/// `text` without the characters at its back that `strip` accepts.
pub open spec fn without_back(text: Seq<char>, strip: spec_fn(char) -> bool) -> Seq<char>
    decreases text.len(),
{
    if text.len() > 0 && strip(text.last()) {
        without_back(text.drop_last(), strip)
    } else {
        text
    }
}

/// `text` without the characters at either end that `strip` accepts.
pub open spec fn stripped(text: Seq<char>, strip: spec_fn(char) -> bool) -> Seq<char> {
    without_back(without_front(text, strip), strip)
}

/// Whether `from..to` is what is left of `text` once the characters that
/// `strip` accepts are taken from both ends, the front first.
pub open spec fn is_stripped_range(
    text: Seq<char>,
    strip: spec_fn(char) -> bool,
    from: int,
    to: int,
) -> bool {
    &&& 0 <= from <= to <= text.len()
    &&& forall|i: int| 0 <= i < from ==> strip(#[trigger] text[i])
    &&& forall|i: int| to <= i < text.len() ==> strip(#[trigger] text[i])
    &&& from < text.len() ==> !strip(text[from])
    &&& from < to ==> !strip(text[to - 1])
}

proof fn lemma_without_front(text: Seq<char>, strip: spec_fn(char) -> bool, from: int)
    requires
        0 <= from <= text.len(),
        forall|i: int| 0 <= i < from ==> strip(#[trigger] text[i]),
        from < text.len() ==> !strip(text[from]),
    ensures
        without_front(text, strip) == text.skip(from),
    decreases from,
{
    if from == 0 {
        assert(text.skip(0) =~= text);
    } else {
        assert(strip(text[0]));
        let rest = text.drop_first();
        assert forall|i: int| 0 <= i < from - 1 implies strip(#[trigger] rest[i]) by {
            assert(rest[i] == text[i + 1]);
        }
        lemma_without_front(rest, strip, from - 1);
        assert(rest.skip(from - 1) =~= text.skip(from));
    }
}

proof fn lemma_without_back(text: Seq<char>, strip: spec_fn(char) -> bool, to: int)
    requires
        0 <= to <= text.len(),
        forall|i: int| to <= i < text.len() ==> strip(#[trigger] text[i]),
        to > 0 ==> !strip(text[to - 1]),
    ensures
        without_back(text, strip) == text.take(to),
    decreases text.len() - to,
{
    if to == text.len() {
        assert(text.take(to) =~= text);
    } else {
        assert(strip(text[text.len() - 1]));
        let rest = text.drop_last();
        lemma_without_back(rest, strip, to);
        assert(rest.take(to) =~= text.take(to));
    }
}

/// The range that is left after stripping holds the stripped text.
pub proof fn lemma_stripped_range(
    text: Seq<char>,
    strip: spec_fn(char) -> bool,
    from: int,
    to: int,
)
    requires
        is_stripped_range(text, strip, from, to),
    ensures
        stripped(text, strip) == text.subrange(from, to),
{
    lemma_without_front(text, strip, from);
    let rest = text.skip(from);
    assert forall|i: int| to - from <= i < rest.len() implies strip(#[trigger] rest[i]) by {
        assert(rest[i] == text[i + from]);
    }
    if to > from {
        assert(rest[to - from - 1] == text[to - 1]);
    } else if from < text.len() {
        assert(rest[0] == text[from]);
    }
    lemma_without_back(rest, strip, to - from);
    assert(rest.take(to - from) =~= text.subrange(from, to));
}

/// The characters of `text`, one by one.
pub fn chars_of(text: &str) -> (chars: Vec<char>)
    ensures
        chars@ == text@,
{
    broadcast use vstd::string::group_string_axioms;

    let mut chars: Vec<char> = Vec::new();
    for c in it: text.chars()
        invariant
            it.seq() == text@,
            chars@ == text@.take(it.index() as int),
    {
        let ghost done = it.index() as int;
        chars.push(c);
        assert(text@.take(done + 1) =~= text@.take(done).push(c));
    }
    assert(text@.take(text@.len() as int) =~= text@);
    chars
}

/// Whether `at` is the first position below `len` that `accept` accepts.
pub open spec fn is_first_where(at: int, len: int, accept: spec_fn(int) -> bool) -> bool {
    &&& 0 <= at < len
    &&& accept(at)
    &&& forall|i: int| 0 <= i < at ==> !#[trigger] accept(i)
}

/// The first position below `len` that `accept` accepts, if there is one.
pub open spec fn first_where(len: int, accept: spec_fn(int) -> bool) -> Option<int> {
    if exists|at: int| is_first_where(at, len, accept) {
        Some(choose|at: int| is_first_where(at, len, accept))
    } else {
        None
    }
}

/// A first position is the only first position.
pub proof fn lemma_first_where_found(at: int, len: int, accept: spec_fn(int) -> bool)
    requires
        is_first_where(at, len, accept),
    ensures
        first_where(len, accept) == Some(at),
{
    let chosen = choose|at: int| is_first_where(at, len, accept);
    if chosen < at {
        assert(!accept(chosen));
    } else if at < chosen {
        assert(!accept(at));
    }
}

/// Where no position is accepted there is no first position.
pub proof fn lemma_first_where_absent(len: int, accept: spec_fn(int) -> bool)
    requires
        forall|i: int| 0 <= i < len ==> !#[trigger] accept(i),
    ensures
        first_where(len, accept) is None,
{
}

/// Whether `c` is one of the digits `0` to `9`.
pub open spec fn is_digit(c: char) -> bool {
    '0' <= c <= '9'
}

/// The number that a sequence of digits denotes in base ten.
pub open spec fn decimal_value(digits: Seq<char>) -> nat
    decreases digits.len(),
{
    if digits.len() == 0 {
        0
    } else {
        (10 * decimal_value(digits.drop_last()) + (digits.last() as int - '0' as int)) as nat
    }
}

/// The digits of a number: the text itself, without a leading plus sign.
pub open spec fn unsigned_part(text: Seq<char>) -> Seq<char> {
    if text.len() > 0 && text.first() == '+' {
        text.drop_first()
    } else {
        text
    }
}

/// The number that `text` denotes: one or more digits, with or without a
/// plus sign in front, and nothing else.
pub open spec fn parsed_number(text: Seq<char>) -> Option<nat> {
    let digits = unsigned_part(text);
    if digits.len() > 0 && (forall|i: int| 0 <= i < digits.len() ==> is_digit(#[trigger] digits[i])) {
        Some(decimal_value(digits))
    } else {
        None
    }
}

/// What a text denotes when it is read as a number up to some limit.
#[derive(Clone, Copy, Debug, PartialEq, Eq, Structural)]
pub enum Number {
    /// The text is not a number.
    Invalid,
    /// The text is a number beyond the limit.
    TooLarge,
    /// The text is this number.
    Value(usize),
}

/// `text` read as a number that may not exceed `limit`.
pub open spec fn number_up_to(text: Seq<char>, limit: usize) -> Number {
    match parsed_number(text) {
        None => Number::Invalid,
        Some(number) => if number <= limit {
            Number::Value(number as usize)
        } else {
            Number::TooLarge
        },
    }
}

/// Reads the characters `from..to` of `chars` as a number up to `limit`.
pub(crate) fn read_number(chars: &Vec<char>, from: usize, to: usize, limit: usize) -> (number: Number)
    requires
        from <= to <= chars.len(),
    ensures
        number == number_up_to(chars@.subrange(from as int, to as int), limit),
{
    let ghost text = chars@.subrange(from as int, to as int);
    let mut at: usize = from;
    if at < to && chars[at] == '+' {
        at += 1;
    }
    let ghost digits = chars@.subrange(at as int, to as int);
    assert(digits =~= unsigned_part(text));
    if at == to {
        return Number::Invalid;
    }
    let first = at;
    let mut value: u128 = 0;
    let mut beyond = false;
    assert(digits.take(0) =~= Seq::empty());
    while at < to
        invariant
            from <= first <= at <= to <= chars.len(),
            text == chars@.subrange(from as int, to as int),
            digits == chars@.subrange(first as int, to as int),
            digits == unsigned_part(text),
            forall|i: int| 0 <= i < at - first ==> is_digit(#[trigger] digits[i]),
            !beyond ==> value == decimal_value(digits.take(at - first)) && value <= limit,
            beyond ==> decimal_value(digits.take(at - first)) > limit,
        decreases to - at,
    {
        let c = chars[at];
        assert(digits[at - first] == c);
        if !('0' <= c && c <= '9') {
            return Number::Invalid;
        }
        assert(digits.take(at - first + 1).drop_last() =~= digits.take(at - first));
        assert(digits.take(at - first + 1).last() == c);
        if !beyond {
            value = 10 * value + (c as u128 - '0' as u128);
            if value > limit as u128 {
                beyond = true;
            }
        }
        at += 1;
    }
    assert(digits.take(to - first) =~= digits);
    if beyond {
        Number::TooLarge
    } else {
        Number::Value(value as usize)
    }
}

} // verus!
