//! Regular-expression matching, delegated to the `regex` crate.
//!
//! Nothing in this file is proved: it states what the library relies on from
//! `regex`, and the rest of the crate is verified against these statements.

use crate::error::TwineError;
use crate::error::TwineErrorView;
use regex::Regex;
use vstd::prelude::*;

verus! {

/// `regex::Regex`, a compiled expression. The library carries it from
/// `Regex::new` to the calls that match with it and looks at nothing inside.
#[verifier::external_type_specification]
#[verifier::external_body]
pub struct ExRegex(regex::Regex);

/// `regex::Error`, what `Regex::new` returns for a pattern that it rejects.
/// The library looks at nothing inside.
#[verifier::external_type_specification]
#[verifier::external_body]
pub struct ExRegexError(regex::Error);

/// Whether `regex::Regex::new` accepts `pattern`.
pub uninterp spec fn regex_accepts(pattern: Seq<char>) -> bool;

/// The pattern a compiled expression was built from (`Regex::as_str`).
pub uninterp spec fn regex_source(re: Regex) -> Seq<char>;

/// Whether a compiled expression has the options that `Regex::new` gives
/// it, so that its pattern alone says what it matches.
pub uninterp spec fn regex_plain(re: Regex) -> bool;

/// The groups of a match, or the lack of a match.
pub type Found = Option<Seq<Option<Seq<char>>>>;

/// The capture groups of the leftmost match of `pattern` in `text`, as
/// `Regex::captures` reports them: group 0 is the whole match, a group that
/// took no part in the match is `None`.
pub uninterp spec fn regex_captures(pattern: Seq<char>, text: Seq<char>) -> Option<
    Seq<Option<Seq<char>>>,
>;

/// The capture groups of each of the successive non-overlapping matches of
/// `pattern` in `text`, as `Regex::captures_iter` yields them.
pub uninterp spec fn regex_captures_all(pattern: Seq<char>, text: Seq<char>) -> Seq<
    Seq<Option<Seq<char>>>,
>;

/// Calls `regex::Regex::new`. Whether it succeeds depends on the pattern
/// alone; the compiled expression remembers the pattern and has the default
/// options.
#[verifier::external_body]
pub(crate) fn compile(pattern: &str) -> (r: Result<Regex, regex::Error>)
    ensures
        r is Ok <==> regex_accepts(pattern@),
        r matches Ok(re) ==> regex_source(re) == pattern@ && regex_plain(re),
{
    Regex::new(pattern)
}

/// Calls `Regex::captures` and copies each group's matched text out. For
/// an expression with the default options the outcome depends on its
/// pattern and on the text alone.
#[verifier::external_body]
pub(crate) fn captures(re: &Regex, text: &str) -> (r: Option<Vec<Option<String>>>)
    requires
        regex_plain(*re),
    ensures
        r.deep_view() == regex_captures(regex_source(*re), text@),
{
    re.captures(text).map(|caps| caps.iter().map(|m| m.map(|m| m.as_str().to_owned())).collect())
}

/// Calls `Regex::captures_iter` and copies each group's matched text out of
/// every match. For an expression with the default options the outcome
/// depends on its pattern and on the text alone.
#[verifier::external_body]
pub(crate) fn captures_all(re: &Regex, text: &str) -> (r: Vec<Vec<Option<String>>>)
    requires
        regex_plain(*re),
    ensures
        r.deep_view() == regex_captures_all(regex_source(*re), text@),
{
    re.captures_iter(text).map(
        |caps| caps.iter().map(|m| m.map(|m| m.as_str().to_owned())).collect(),
    ).collect()
}

/// A section header: `[`, the section's name, `]`, after optional blanks.
pub const SECTION_PATTERN: &'static str = "^\\s*\\[([^\\]]+)\\]";

/// A key-value line: a token, `=`, and a value trimmed of surrounding blanks.
pub const KEY_VALUE_PATTERN: &'static str = "^\\s*([^\\s=;#]+)\\s*=\\s*(.+?)\\s*$";

/// One token of a translation: a printf placeholder (flag, width, precision,
/// conversion), a run of text without `%`, an escaped `%%`, or a lone `%`.
pub const PLACEHOLDER_PATTERN: &'static str =
    "%([-+#])?(\\d+)?(\\.\\d+)?([dis@xXf])|[^%]+|%%|%";

/// A locale tag: a language word, then optionally `-` and a region word.
pub const LOCALE_PATTERN: &'static str = "(\\w+)(-(\\w+))?";

/// The four compiled expressions that the catalog syntax is read with.
pub struct Grammar {
    section: Regex,
    key_value: Regex,
    placeholder: Regex,
    locale: Regex,
}

impl Grammar {
    /// Each expression was compiled from its pattern, with the default
    /// options.
    #[verifier::type_invariant]
    spec fn built_from_the_patterns(self) -> bool {
        &&& regex_plain(self.section) && regex_source(self.section) == SECTION_PATTERN@
        &&& regex_plain(self.key_value) && regex_source(self.key_value) == KEY_VALUE_PATTERN@
        &&& regex_plain(self.placeholder) && regex_source(self.placeholder)
            == PLACEHOLDER_PATTERN@
        &&& regex_plain(self.locale) && regex_source(self.locale) == LOCALE_PATTERN@
    }

    /// Whether `regex` accepts all four patterns.
    pub open spec fn patterns_accepted() -> bool {
        &&& regex_accepts(SECTION_PATTERN@)
        &&& regex_accepts(KEY_VALUE_PATTERN@)
        &&& regex_accepts(PLACEHOLDER_PATTERN@)
        &&& regex_accepts(LOCALE_PATTERN@)
    }

    /// Compiles the four patterns, or fails with `InvalidPattern` when
    /// `regex` rejects one of them.
    pub fn new() -> (r: Result<Grammar, TwineError>)
        ensures
            r is Ok <==> Self::patterns_accepted(),
            r matches Err(e) ==> e@ == TwineErrorView::InvalidPattern,
    {
        let section = match compile(SECTION_PATTERN) {
            Ok(re) => re,
            Err(_) => {
                return Err(TwineError::InvalidPattern);
            },
        };
        let key_value = match compile(KEY_VALUE_PATTERN) {
            Ok(re) => re,
            Err(_) => {
                return Err(TwineError::InvalidPattern);
            },
        };
        let placeholder = match compile(PLACEHOLDER_PATTERN) {
            Ok(re) => re,
            Err(_) => {
                return Err(TwineError::InvalidPattern);
            },
        };
        let locale = match compile(LOCALE_PATTERN) {
            Ok(re) => re,
            Err(_) => {
                return Err(TwineError::InvalidPattern);
            },
        };
        Ok(Grammar { section, key_value, placeholder, locale })
    }

    /// The groups of the section header that `line` starts with, if any.
    pub fn section_groups(&self, line: &str) -> (r: Option<Vec<Option<String>>>)
        ensures
            r.deep_view() == regex_captures(SECTION_PATTERN@, line@),
    {
        proof {
            use_type_invariant(self);
        }
        captures(&self.section, line)
    }

    /// The groups of the key-value pair that `line` holds, if any.
    pub fn key_value_groups(&self, line: &str) -> (r: Option<Vec<Option<String>>>)
        ensures
            r.deep_view() == regex_captures(KEY_VALUE_PATTERN@, line@),
    {
        proof {
            use_type_invariant(self);
        }
        captures(&self.key_value, line)
    }

    /// The groups of each successive token of `text`.
    pub fn placeholder_groups(&self, text: &str) -> (r: Vec<Vec<Option<String>>>)
        ensures
            r.deep_view() == regex_captures_all(PLACEHOLDER_PATTERN@, text@),
    {
        proof {
            use_type_invariant(self);
        }
        captures_all(&self.placeholder, text)
    }

    /// The groups of the first locale tag found in `tag`, if any.
    pub fn locale_groups(&self, tag: &str) -> (r: Option<Vec<Option<String>>>)
        ensures
            r.deep_view() == regex_captures(LOCALE_PATTERN@, tag@),
    {
        proof {
            use_type_invariant(self);
        }
        captures(&self.locale, tag)
    }
}

} // verus!
