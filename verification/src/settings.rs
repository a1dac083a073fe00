//! The settings that are given on the command line, one `key=value` each.

use crate::candidate::DEFAULT_MAX_RESULTS;
use crate::text::Number;
use crate::text::chars_of;
use crate::text::first_where;
use crate::text::is_first_where;
use crate::text::is_stripped_range;
use crate::text::lemma_first_where_absent;
use crate::text::lemma_first_where_found;
use crate::text::lemma_stripped_range;
use crate::text::number_up_to;
use crate::text::read_number;
use crate::text::stripped;
use vstd::prelude::*;

verus! {

/// One change to the configuration.
#[derive(Debug, PartialEq, Eq)]
pub enum Setting {
    /// Register a root directory. Without an alias of its own it goes by
    /// the last component of its path.
    Root { alias: Option<String>, root: String },
    /// Make this root the one to start from where no alias is given.
    DefaultRoot(String),
    /// Keep this many matches per level.
    MaxResults(usize),
    /// Consider directories only, or files too.
    OnlyDirectories(bool),
    /// Ask which match to take where there are several, or take the best.
    SelectOption(bool),
}

/// What a [`Setting`] stands for in specifications.
pub enum SettingView {
    Root { alias: Option<Seq<char>>, root: Seq<char> },
    DefaultRoot(Seq<char>),
    MaxResults(usize),
    OnlyDirectories(bool),
    SelectOption(bool),
}

impl View for Setting {
    type V = SettingView;

    open spec fn view(&self) -> SettingView {
        match self {
            Setting::Root { alias, root } => SettingView::Root {
                alias: match alias {
                    Some(alias) => Some(alias@),
                    None => None,
                },
                root: root@,
            },
            Setting::DefaultRoot(root) => SettingView::DefaultRoot(root@),
            Setting::MaxResults(max_results) => SettingView::MaxResults(*max_results),
            Setting::OnlyDirectories(only) => SettingView::OnlyDirectories(*only),
            Setting::SelectOption(select) => SettingView::SelectOption(*select),
        }
    }
}

/// Why an argument is no setting.
#[derive(Clone, Copy, Debug, PartialEq, Eq, Structural)]
pub enum SettingError {
    /// The argument has no `=` and so no value.
    MissingValue,
    /// The text in front of the `=` is no known key.
    UnknownKey,
}

/// The quotation marks that are stripped from both ends of a value.
pub open spec fn quotes() -> spec_fn(char) -> bool {
    |c: char| c == '"'
}

/// Where the characters of `text` equal `c`.
pub open spec fn occurrences(text: Seq<char>, c: char) -> spec_fn(int) -> bool {
    |i: int| text[i] == c
}

/// Where `value` has a colon that parts an alias from a path: one that is
/// not followed by `/` or `\`, as the colon behind a drive letter is.
pub open spec fn alias_separators(value: Seq<char>) -> spec_fn(int) -> bool {
    |i: int|
        value[i] == ':' && (i + 1 < value.len() ==> value[i + 1] != '/' && value[i + 1] != '\\')
}

/// The alias that the value of a root carries in front of its first
/// separating colon, if it has such a colon.
pub open spec fn alias_of(value: Seq<char>) -> Option<Seq<char>> {
    match first_where(value.len() as int, alias_separators(value)) {
        Some(at) => Some(value.take(at)),
        None => None,
    }
}

/// The result cap that `value` sets: the number it denotes, or the default
/// where it denotes none that fits.
pub open spec fn max_results_of(value: Seq<char>) -> usize {
    match number_up_to(value, usize::MAX) {
        Number::Value(max_results) => max_results,
        _ => DEFAULT_MAX_RESULTS,
    }
}

/// The setting that `value` is under `key`.
pub open spec fn setting_of(key: Seq<char>, value: Seq<char>) -> Result<SettingView, SettingError> {
    if key == "root"@ {
        Ok(SettingView::Root { alias: alias_of(value), root: value })
    } else if key == "default_root"@ {
        Ok(SettingView::DefaultRoot(value))
    } else if key == "max_results"@ {
        Ok(SettingView::MaxResults(max_results_of(value)))
    } else if key == "only_dirs"@ {
        Ok(SettingView::OnlyDirectories(value == "true"@))
    } else if key == "select_option"@ {
        Ok(SettingView::SelectOption(value == "true"@))
    } else {
        Err(SettingError::UnknownKey)
    }
}

/// The setting that an argument of the form `key=value` denotes. The key
/// ends at the first `=`; the value is what follows, without the quotation
/// marks at its ends.
pub open spec fn setting_spec(arg: Seq<char>) -> Result<SettingView, SettingError> {
    match first_where(arg.len() as int, occurrences(arg, '=')) {
        None => Err(SettingError::MissingValue),
        Some(at) => setting_of(arg.take(at), stripped(arg.skip(at + 1), quotes())),
    }
}

/// Whether the characters `from..to` of `chars` spell `word`.
fn spells(chars: &Vec<char>, from: usize, to: usize, word: &str) -> (same: bool)
    requires
        from <= to <= chars.len(),
    ensures
        same == (chars@.subrange(from as int, to as int) == word@),
{
    let letters = chars_of(word);
    if letters.len() != to - from {
        return false;
    }
    let mut i: usize = 0;
    while i < letters.len()
        invariant
            from <= to <= chars.len(),
            letters.len() == to - from,
            letters@ == word@,
            i <= letters.len(),
            forall|k: int| 0 <= k < i ==> chars@[from + k] == #[trigger] letters@[k],
        decreases letters.len() - i,
    {
        if chars[from + i] != letters[i] {
            assert(chars@.subrange(from as int, to as int)[i as int] != word@[i as int]);
            return false;
        }
        i += 1;
    }
    assert(chars@.subrange(from as int, to as int) =~= word@);
    true
}

/// The characters `from..to` of `text`, as a text of their own.
fn text_of(text: &str, from: usize, to: usize) -> (part: String)
    requires
        from <= to <= text@.len(),
    ensures
        part@ == text@.subrange(from as int, to as int),
{
    text.substring_char(from, to).to_owned()
}

/// The position of the colon that parts alias from path in the characters
/// `from..to` of `chars`, counted from `from`.
fn find_alias_separator(chars: &Vec<char>, from: usize, to: usize) -> (at: Option<usize>)
    requires
        from <= to <= chars.len(),
    ensures
        match at {
            Some(at) => at < to - from && first_where(
                to - from,
                alias_separators(chars@.subrange(from as int, to as int)),
            ) == Some(at as int),
            None => first_where(
                to - from,
                alias_separators(chars@.subrange(from as int, to as int)),
            ) is None,
        },
{
    let ghost value = chars@.subrange(from as int, to as int);
    let ghost accept = alias_separators(value);
    let mut i: usize = from;
    while i < to
        invariant
            from <= i <= to <= chars.len(),
            value == chars@.subrange(from as int, to as int),
            accept == alias_separators(value),
            forall|k: int| 0 <= k < i - from ==> !#[trigger] accept(k),
        decreases to - i,
    {
        assert(value[i - from] == chars@[i as int]);
        if chars[i] == ':' && (i + 1 == to || (chars[i + 1] != '/' && chars[i + 1] != '\\')) {
            proof {
                if i + 1 < to {
                    assert(value[i - from + 1] == chars@[i + 1]);
                }
                assert(is_first_where(i - from, to - from, accept));
                lemma_first_where_found(i - from, to - from, accept);
            }
            return Some(i - from);
        }
        proof {
            if i + 1 < to {
                assert(value[i - from + 1] == chars@[i + 1]);
            }
            assert(!accept(i - from));
        }
        i += 1;
    }
    proof {
        lemma_first_where_absent(to - from, accept);
    }
    None
}

/// Reads one argument of the form `key=value`. The keys are `root`,
/// `default_root`, `max_results`, `only_dirs` and `select_option`.
/// Quotation marks around the value are dropped. A result cap that is no
/// number is the default cap, and a switch is on for `true` and off for
/// anything else.
pub fn parse_setting(arg: &str) -> (setting: Result<Setting, SettingError>)
    ensures
        match setting {
            Ok(setting) => setting_spec(arg@) == Ok::<SettingView, SettingError>(setting@),
            Err(error) => setting_spec(arg@) == Err::<SettingView, SettingError>(error),
        },
{
    let chars = chars_of(arg);
    let ghost equals = occurrences(arg@, '=');
    let mut at: usize = 0;
    while at < chars.len() && chars[at] != '='
        invariant
            at <= chars.len(),
            chars@ == arg@,
            equals == occurrences(arg@, '='),
            forall|k: int| 0 <= k < at ==> !#[trigger] equals(k),
        decreases chars.len() - at,
    {
        assert(!equals(at as int));
        at += 1;
    }
    if at == chars.len() {
        proof {
            lemma_first_where_absent(arg@.len() as int, equals);
        }
        return Err(SettingError::MissingValue);
    }
    proof {
        assert(is_first_where(at as int, arg@.len() as int, equals));
        lemma_first_where_found(at as int, arg@.len() as int, equals);
    }
    let mut from: usize = at + 1;
    while from < chars.len() && chars[from] == '"'
        invariant
            at < from <= chars.len(),
            forall|i: int| at < i < from ==> chars@[i] == '"',
        decreases chars.len() - from,
    {
        from += 1;
    }
    let mut to: usize = chars.len();
    while to > from && chars[to - 1] == '"'
        invariant
            from <= to <= chars.len(),
            forall|i: int| to <= i < chars.len() ==> chars@[i] == '"',
        decreases to,
    {
        to -= 1;
    }
    let ghost key = arg@.take(at as int);
    let ghost value = chars@.subrange(from as int, to as int);
    proof {
        let rest = arg@.skip(at + 1);
        assert forall|i: int| 0 <= i < from - at - 1 implies quotes()(#[trigger] rest[i]) by {
            assert(rest[i] == chars@[i + at + 1]);
        }
        assert forall|i: int| to - at - 1 <= i < rest.len() implies quotes()(#[trigger] rest[i]) by {
            assert(rest[i] == chars@[i + at + 1]);
        }
        if from < chars.len() {
            assert(rest[from - at - 1] == chars@[from as int]);
        }
        if from < to {
            assert(rest[to - at - 2] == chars@[to - 1]);
        }
        assert(is_stripped_range(rest, quotes(), from - at - 1, to - at - 1));
        lemma_stripped_range(rest, quotes(), from - at - 1, to - at - 1);
        assert(rest.subrange(from - at - 1, to - at - 1) =~= value);
        assert(chars@.subrange(0, at as int) =~= key);
    }
    if spells(&chars, 0, at, "root") {
        let alias = match find_alias_separator(&chars, from, to) {
            Some(colon) => {
                assert(chars@.subrange(from as int, from + colon) =~= value.take(colon as int));
                Some(text_of(arg, from, from + colon))
            },
            None => None,
        };
        Ok(Setting::Root { alias, root: text_of(arg, from, to) })
    } else if spells(&chars, 0, at, "default_root") {
        Ok(Setting::DefaultRoot(text_of(arg, from, to)))
    } else if spells(&chars, 0, at, "max_results") {
        let max_results = match read_number(&chars, from, to, usize::MAX) {
            Number::Value(max_results) => max_results,
            _ => DEFAULT_MAX_RESULTS,
        };
        Ok(Setting::MaxResults(max_results))
    } else if spells(&chars, 0, at, "only_dirs") {
        Ok(Setting::OnlyDirectories(spells(&chars, from, to, "true")))
    } else if spells(&chars, 0, at, "select_option") {
        Ok(Setting::SelectOption(spells(&chars, from, to, "true")))
    } else {
        Err(SettingError::UnknownKey)
    }
}

} // verus!
