//! Compiles multi-locale text catalogs into lookup code.
//!
//! A catalog is a text in sections: a header `[key]` opens the section of a
//! key, and each line `tag = text` below it gives the key's translation for
//! a locale, `en` or `en-gb`. The text may hold printf placeholders such as
//! `%s` or `%.0f`.
//!
//! [`compiler::compile`] turns the text of one or more catalogs into the
//! text of the generated code: a macro with one rule for each key, which
//! dispatches on the locale, and the locale type with its default. The
//! steps on the way are at hand one by one:
//!
//! - [`reader`] reads a source into the raw catalog and merges sources,
//!   a later source overriding whole keys of an earlier one;
//! - [`locale`] reads locale tags, orders them and collects them;
//! - [`template`] cuts a translation into literal text and placeholders
//!   and writes it in the target format syntax;
//! - [`catalog`] compiles the raw catalog and resolves a key for a locale;
//! - [`dispatch`] orders the arms of a key's rule;
//! - [`emit`] and [`layout`] write the generated code out;
//! - [`codec`] names a locale as `en_GB` and reads such a name back.
//!
//! The same catalog text always gives the same code, character for
//! character. [`invariance`] shows that the code does not depend on the
//! order in which the keys stand either.
//!
//! Matching is done by the `regex` crate, casing by `heck`, indentation by
//! `indenter`; [`pattern`], [`casing`] and [`layout`] say what is relied
//! on from them.

pub mod casing;
pub mod catalog;
pub mod codec;
pub mod colours;
pub mod compiler;
pub mod dispatch;
pub mod emit;
pub mod error;
pub mod invariance;
pub mod layout;
pub mod locale;
pub mod order;
pub mod pattern;
pub mod pieces;
pub mod reader;
pub mod template;
pub mod text;
