//! The fixed text of the generated code, piece by piece. A piece ends
//! where a name or a quoted text of the catalog is put in.

use vstd::prelude::*;

verus! {

/// An empty line before everything else.
pub const PREAMBLE: &'static str = "\n\n            ";

/// The head of the lookup macro.
pub const MACRO_OPEN: &'static str =
    "\n            // i18n.rs\n\n            /// Create translation strings for supported language varients.\n            #[macro_export]\n            macro_rules! t {\n            ";

/// A key's rule, up to the key.
pub const KEY_OPEN_HEAD: &'static str = "\n                (";

/// A key's rule, from the key to the first arm.
pub const KEY_OPEN_TAIL: &'static str =
    " $(, $fmt_args:expr)* => $lang:expr) => {{\n                    match $lang {\n                ";

/// The end of a key's rule.
pub const KEY_CLOSE: &'static str =
    "\n                    }\n                }};\n                ";

/// The end of the lookup macro.
pub const MACRO_CLOSE: &'static str = "\n            }\n            ";

/// The head of the locale type.
pub const ENUM_OPEN: &'static str =
    "\n\n            /// Valid language variants.\n            #[derive(Clone, Copy, Hash, Debug, PartialEq)]\n            #[allow(dead_code)]\n            pub enum Lang {\n            ";

/// A variant of the locale type, up to the language in its comment.
pub const VARIANT_HEAD: &'static str = "\n                /// variant ";

/// Between the comment and the variant's name.
pub const VARIANT_MID: &'static str = "\n                ";

/// After the variant's name.
pub const VARIANT_TAIL: &'static str = "(&'static str),\n                ";

/// The end of the locale type and the head of the table of all locales.
pub const TABLE_OPEN: &'static str =
    "\n            }\n\n            impl Lang {\n                /// Array with known language identifier.\n                pub fn all_languages() -> &'static [&'static Lang] {\n                    &[\n            ";

/// An item of the table, up to the language.
pub const TABLE_ITEM_HEAD: &'static str = "\n                &Lang::";

/// Between language and region.
pub const TABLE_ITEM_MID: &'static str = "(";

/// After the region.
pub const TABLE_ITEM_TAIL: &'static str = "),\n                ";

/// The end of the table of all locales.
pub const TABLE_CLOSE: &'static str =
    "\n                    ]\n                }\n            }\n            ";

/// The head of the default locale.
pub const DEFAULT_OPEN: &'static str = "\n\n            impl Default for Lang {\n            ";

/// The default locale, up to the language.
pub const DEFAULT_HEAD: &'static str = "\n            fn default() -> Self { Lang::";

/// Between language and region.
pub const DEFAULT_MID: &'static str = "(";

/// After the region.
pub const DEFAULT_TAIL: &'static str = ") }\n            ";

/// The end of the default locale.
pub const DEFAULT_CLOSE: &'static str = "\n            }\n            ";

/// A dispatch arm, up to the language.
pub const ARM_HEAD: &'static str = "\n                $crate::Lang::";

/// Between language and region pattern.
pub const ARM_OPEN: &'static str = "(";

/// Between region pattern and format string.
pub const ARM_MID: &'static str = ") => format!(";

/// After the format string.
pub const ARM_TAIL: &'static str = " $(, $fmt_args)*),\n                ";

/// The fallback arm, up to the format string.
pub const FALLBACK_HEAD: &'static str = "\n                _ => format!(";

/// After the format string.
pub const FALLBACK_TAIL: &'static str = " $(, $fmt_args)*),\n                ";

/// The head of the decoder, up to the first known region.
pub const DECODER_OPEN: &'static str =
    "\n\n            impl<'de> serde::Deserialize<'de> for Lang {\n                fn deserialize<D>(deserializer: D) -> Result<Self, D::Error>\n                where\n                    D: serde::Deserializer<'de>,\n                {\n                    use serde::de;\n                    use std::fmt;\n\n                    struct LangVisitor;\n\n                    impl<'de> de::Visitor<'de> for LangVisitor {\n                        type Value = Lang;\n\n                        fn expecting(&self, formatter: &mut fmt::Formatter<'_>) -> fmt::Result {\n                            formatter.write_str(\"expected string\")\n                        }\n\n                        fn visit_str<E>(self, value: &str) -> Result<Lang, E>\n                        where\n                            E: de::Error,\n                        {\n                            let mut it = value.splitn(2, '_');\n                            let lang = it.next().unwrap().to_lowercase();\n                            let region = it.next().unwrap_or(\"\");\n\n                            let region = match region.to_lowercase().as_str() {\n            ";

/// A known region, up to its first mention.
pub const DECODER_REGION_HEAD: &'static str = "\n                ";

/// Between the two mentions of a region.
pub const DECODER_REGION_MID: &'static str = " => ";

/// After the second mention.
pub const DECODER_REGION_TAIL: &'static str = ",\n                ";

/// Between the known regions and the known languages.
pub const DECODER_LANGUAGES: &'static str =
    "\n                \"\" => \"\",\n                _ => {\n                    return Err(de::Error::invalid_value(\n                        de::Unexpected::Str(region),\n                        &\"existing region\",\n                    ));\n                }\n            };\n\n            match lang.as_str() {\n            ";

/// A known language, up to its name.
pub const DECODER_LANGUAGE_HEAD: &'static str = "\n                ";

/// Between the name and the variant.
pub const DECODER_LANGUAGE_MID: &'static str = " => Ok(Lang::";

/// After the variant.
pub const DECODER_LANGUAGE_TAIL: &'static str = "(region)),\n                ";

/// The end of the decoder and the head of the encoder.
pub const ENCODER_OPEN: &'static str =
    "\n                                _ => {\n                                    return Err(de::Error::invalid_value(\n                                        de::Unexpected::Str(region),\n                                        &\"existing language\",\n                                    ));\n                                }\n                            }\n                        }\n                    }\n\n                    deserializer.deserialize_str(LangVisitor)\n                }\n            }\n\n            impl serde::Serialize for Lang {\n                fn serialize<S>(&self, serializer: S) -> Result<S::Ok, S::Error>\n                where\n                    S: serde::ser::Serializer,\n                {\n                    match self {\n            ";

/// A language of the encoder, up to the variant.
pub const ENCODER_HEAD: &'static str = "\n                Lang::";

/// Between the variant and the name, for a locale without region.
pub const ENCODER_BARE: &'static str = "(region) if region.is_empty() => serializer.serialize_str(";

/// Between the name and the variant, for a locale with a region.
pub const ENCODER_NEXT: &'static str = "),\n                Lang::";

/// Between the variant and the name, for a locale with a region.
pub const ENCODER_FULL: &'static str =
    "(region) => serializer.serialize_str(\n                    &format!(\"{}_{}\", ";

/// After the name.
pub const ENCODER_TAIL: &'static str =
    ", region.to_uppercase()),\n                ),\n                ";

/// The end of the encoder.
pub const ENCODER_CLOSE: &'static str =
    "\n                    }\n                }\n            }\n            ";

} // verus!
