//! Casing: identifiers by the `heck` crate, whole texts by the standard
//! library.
//!
//! Nothing in this file is proved: the conversions are named, and the rest
//! of the crate speaks of them by these names.

use heck::CamelCase;
use heck::SnakeCase;
use vstd::prelude::*;

verus! {

/// What `heck` makes of `text` in snake case (`SnakeCase::to_snake_case` on
/// `str`): its words in lower case, joined by single underscores.
pub uninterp spec fn heck_snake_case(text: Seq<char>) -> Seq<char>;

/// What `heck` makes of `text` in camel case (`CamelCase::to_camel_case` on
/// `str`): its words capitalised and joined without a separator.
pub uninterp spec fn heck_camel_case(text: Seq<char>) -> Seq<char>;

/// Calls `heck::SnakeCase::to_snake_case`.
#[verifier::external_body]
pub(crate) fn snake_case(text: &str) -> (r: String)
    ensures
        r@ == heck_snake_case(text@),
{
    text.to_snake_case()
}

/// Calls `heck::CamelCase::to_camel_case`.
#[verifier::external_body]
pub(crate) fn camel_case(text: &str) -> (r: String)
    ensures
        r@ == heck_camel_case(text@),
{
    text.to_camel_case()
}

/// The lower-case form of `text` as `str::to_lowercase` gives it.
pub uninterp spec fn lowercase(text: Seq<char>) -> Seq<char>;

/// The upper-case form of `text` as `str::to_uppercase` gives it.
pub uninterp spec fn uppercase(text: Seq<char>) -> Seq<char>;

/// Calls `str::to_lowercase`.
#[verifier::external_body]
pub(crate) fn to_lower(text: &str) -> (r: String)
    ensures
        r@ == lowercase(text@),
{
    text.to_lowercase()
}

/// Calls `str::to_uppercase`.
#[verifier::external_body]
pub(crate) fn to_upper(text: &str) -> (r: String)
    ensures
        r@ == uppercase(text@),
{
    text.to_uppercase()
}

} // verus!
