//! What can go wrong while a catalog is compiled or consulted.

use crate::text::append_decimal;
use crate::text::decimal;
use vstd::prelude::*;

verus! {

/// A failure of the compiler or of a lookup.
#[derive(Debug)]
pub enum TwineError {
    /// The pattern engine rejected one of the catalog syntax's patterns.
    InvalidPattern,
    /// A key-value line stands before any section header. `source` counts
    /// the sources from 0, `line` the lines of that source from 1.
    MalformedCatalog { source: usize, line: usize },
    /// A locale tag holds no language.
    MalformedLocaleTag { tag: String },
    /// Two different catalog keys give the same identifier.
    KeyCollision { key: String },
    /// A key that no source defines was asked for.
    UnresolvedKey { key: String },
    /// A locale name with an unknown language or region was decoded.
    UnknownLocaleOnDecode { text: String },
    /// The catalog holds no translation at all, so no locale is the default.
    NoLocale,
    /// A piece of text to be laid out holds a line that does not start
    /// with a blank.
    BrokenLayout,
}

/// The mathematical content of an [`TwineError`].
pub enum TwineErrorView {
    InvalidPattern,
    MalformedCatalog { source: nat, line: nat },
    MalformedLocaleTag { tag: Seq<char> },
    KeyCollision { key: Seq<char> },
    UnresolvedKey { key: Seq<char> },
    UnknownLocaleOnDecode { text: Seq<char> },
    NoLocale,
    BrokenLayout,
}

impl View for TwineError {
    type V = TwineErrorView;

    open spec fn view(&self) -> TwineErrorView {
        match self {
            TwineError::InvalidPattern => TwineErrorView::InvalidPattern,
            TwineError::MalformedCatalog { source, line } => TwineErrorView::MalformedCatalog {
                source: *source as nat,
                line: *line as nat,
            },
            TwineError::MalformedLocaleTag { tag } => TwineErrorView::MalformedLocaleTag { tag: tag@ },
            TwineError::KeyCollision { key } => TwineErrorView::KeyCollision { key: key@ },
            TwineError::UnresolvedKey { key } => TwineErrorView::UnresolvedKey { key: key@ },
            TwineError::UnknownLocaleOnDecode { text } => TwineErrorView::UnknownLocaleOnDecode {
                text: text@,
            },
            TwineError::NoLocale => TwineErrorView::NoLocale,
            TwineError::BrokenLayout => TwineErrorView::BrokenLayout,
        }
    }
}

/// The mathematical content of a text or a failure.
pub open spec fn outcome(r: Result<String, TwineError>) -> Result<Seq<char>, TwineErrorView> {
    match r {
        Ok(text) => Ok(text@),
        Err(e) => Err(e@),
    }
}

/// What is said of a rejected pattern.
pub const INVALID_PATTERN: &'static str = "the patterns of the catalog syntax were rejected";

/// What is said of a pair outside any section, up to the line number.
pub const MALFORMED_CATALOG: &'static str = "key-value outside section at line ";

/// Between the line number and the number of the source.
pub const MALFORMED_CATALOG_SOURCE: &'static str = " of source ";

/// What is said of a malformed locale tag, up to the tag.
pub const MALFORMED_LOCALE_TAG: &'static str = "no language in the locale tag: ";

/// What is said of a key collision, up to the identifier.
pub const KEY_COLLISION: &'static str = "two keys give the identifier: ";

/// What is said of an unresolved key, up to the key.
pub const UNRESOLVED_KEY: &'static str = "no such key: ";

/// What is said of an unknown locale name, up to the name.
pub const UNKNOWN_LOCALE: &'static str = "unknown language or region: ";

/// What is said of a catalog without locale.
pub const NO_LOCALE: &'static str = "the catalog holds no translation";

/// What is said of a broken layout.
pub const BROKEN_LAYOUT: &'static str = "a line of the generated code starts with no blank";

/// The message of a failure. It names the offending source and line, tag,
/// key or locale name.
pub open spec fn message_of(e: TwineErrorView) -> Seq<char> {
    match e {
        TwineErrorView::InvalidPattern => INVALID_PATTERN@,
        TwineErrorView::MalformedCatalog { source, line } => MALFORMED_CATALOG@ + decimal(line)
            + MALFORMED_CATALOG_SOURCE@ + decimal(source),
        TwineErrorView::MalformedLocaleTag { tag } => MALFORMED_LOCALE_TAG@ + tag,
        TwineErrorView::KeyCollision { key } => KEY_COLLISION@ + key,
        TwineErrorView::UnresolvedKey { key } => UNRESOLVED_KEY@ + key,
        TwineErrorView::UnknownLocaleOnDecode { text } => UNKNOWN_LOCALE@ + text,
        TwineErrorView::NoLocale => NO_LOCALE@,
        TwineErrorView::BrokenLayout => BROKEN_LAYOUT@,
    }
}

impl TwineError {
    /// The message of this failure.
    pub fn message(&self) -> (r: String)
        ensures
            r@ == message_of(self@),
    {
        let mut out = String::new();
        match self {
            TwineError::InvalidPattern => {
                out.append(INVALID_PATTERN);
            },
            TwineError::MalformedCatalog { source, line } => {
                out.append(MALFORMED_CATALOG);
                append_decimal(&mut out, *line);
                out.append(MALFORMED_CATALOG_SOURCE);
                append_decimal(&mut out, *source);
            },
            TwineError::MalformedLocaleTag { tag } => {
                out.append(MALFORMED_LOCALE_TAG);
                out.append(tag.as_str());
            },
            TwineError::KeyCollision { key } => {
                out.append(KEY_COLLISION);
                out.append(key.as_str());
            },
            TwineError::UnresolvedKey { key } => {
                out.append(UNRESOLVED_KEY);
                out.append(key.as_str());
            },
            TwineError::UnknownLocaleOnDecode { text } => {
                out.append(UNKNOWN_LOCALE);
                out.append(text.as_str());
            },
            TwineError::NoLocale => {
                out.append(NO_LOCALE);
            },
            TwineError::BrokenLayout => {
                out.append(BROKEN_LAYOUT);
            },
        }
        proof {
            assert(out@ =~= message_of(self@));
        }
        out
    }
}

} // verus!
