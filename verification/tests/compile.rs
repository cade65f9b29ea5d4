use twine::compiler::compile;
use twine::compiler::compile_with;
use twine::emit::TwineFormatter;
use twine::error::TwineError;
use twine::layout::lay_out;
use twine::layout::starts_lines_blank;
use twine::layout::Block;
use twine::pattern::Grammar;

const BANDS: &str = "
        [band_tool]
            en-us = Tool (US)
            en-gb = Tool (GB)
            fr = Outil
        [band_the_doors]
            en = The Doors
            fr = Les portes
        ";

const BANDS_CODE: &str = "
// i18n.rs

/// Create translation strings for supported language varients.
#[macro_export]
macro_rules! t {
    (band_the_doors $(, $fmt_args:expr)* => $lang:expr) => {{
        match $lang {
            $crate::Lang::En(_) => format!(\"The Doors\" $(, $fmt_args)*),
            $crate::Lang::Fr(_) => format!(\"Les portes\" $(, $fmt_args)*),
            _ => format!(\"The Doors\" $(, $fmt_args)*),
        }
    }};
    (band_tool $(, $fmt_args:expr)* => $lang:expr) => {{
        match $lang {
            $crate::Lang::En(\"us\") => format!(\"Tool (US)\" $(, $fmt_args)*),
            $crate::Lang::En(\"gb\") => format!(\"Tool (GB)\" $(, $fmt_args)*),
            $crate::Lang::Fr(_) => format!(\"Outil\" $(, $fmt_args)*),
            _ => format!(\"Tool (US)\" $(, $fmt_args)*),
        }
    }};
}

/// Valid language variants.
#[derive(Clone, Copy, Hash, Debug, PartialEq)]
#[allow(dead_code)]
pub enum Lang {
    /// variant En
    En(&'static str),
    /// variant Fr
    Fr(&'static str),
}

impl Lang {
    /// Array with known language identifier.
    pub fn all_languages() -> &'static [&'static Lang] {
        &[
            &Lang::En(\"\"),
            &Lang::En(\"gb\"),
            &Lang::En(\"us\"),
            &Lang::Fr(\"\"),
        ]
    }
}

impl Default for Lang {
    fn default() -> Self { Lang::En(\"\") }
}
";

const CODEC_CODE: &str = "
impl<'de> serde::Deserialize<'de> for Lang {
    fn deserialize<D>(deserializer: D) -> Result<Self, D::Error>
    where
        D: serde::Deserializer<'de>,
    {
        use serde::de;
        use std::fmt;

        struct LangVisitor;

        impl<'de> de::Visitor<'de> for LangVisitor {
            type Value = Lang;

            fn expecting(&self, formatter: &mut fmt::Formatter<'_>) -> fmt::Result {
                formatter.write_str(\"expected string\")
            }

            fn visit_str<E>(self, value: &str) -> Result<Lang, E>
            where
                E: de::Error,
            {
                let mut it = value.splitn(2, '_');
                let lang = it.next().unwrap().to_lowercase();
                let region = it.next().unwrap_or(\"\");

                let region = match region.to_lowercase().as_str() {
                    \"us\" => \"us\",
                    \"gb\" => \"gb\",
                    \"\" => \"\",
                    _ => {
                        return Err(de::Error::invalid_value(
                            de::Unexpected::Str(region),
                            &\"existing region\",
                        ));
                    }
                };

                match lang.as_str() {
                    \"en\" => Ok(Lang::En(region)),
                    \"fr\" => Ok(Lang::Fr(region)),
                    _ => {
                        return Err(de::Error::invalid_value(
                            de::Unexpected::Str(region),
                            &\"existing language\",
                        ));
                    }
                }
            }
        }

        deserializer.deserialize_str(LangVisitor)
    }
}

impl serde::Serialize for Lang {
    fn serialize<S>(&self, serializer: S) -> Result<S::Ok, S::Error>
    where
        S: serde::ser::Serializer,
    {
        match self {
            Lang::En(region) if region.is_empty() => serializer.serialize_str(\"en\"),
            Lang::En(region) => serializer.serialize_str(
                &format!(\"{}_{}\", \"en\", region.to_uppercase()),
            ),
            Lang::Fr(region) if region.is_empty() => serializer.serialize_str(\"fr\"),
            Lang::Fr(region) => serializer.serialize_str(
                &format!(\"{}_{}\", \"fr\", region.to_uppercase()),
            ),
        }
    }
}
";

#[test]
fn deterministic() {
    let translations = r#"
        [band_tool]
            en-us = Tool (US)
            en-gb = Tool (GB)
            fr = Outil
        [band_the_doors]
            en = The Doors
            fr = Les portes
        "#;
    // The dataset is very small so it has chances to passes by luck
    for _ in 0..100 {
        let a = compile(&vec![translations.to_string()], false).unwrap();
        let b = compile(&vec![translations.to_string()], false).unwrap();
        println!("{}\n========\n{}", a, b);
        assert!(
            a == b,
            "multiple iterations of generating translations should always output the same",
        );
    }
}

#[test]
fn generates_the_lookup_code() {
    assert_eq!(compile(&vec![BANDS.to_string()], false).unwrap(), BANDS_CODE);
}

#[test]
fn generates_the_codec_when_asked() {
    let code = compile(&vec![BANDS.to_string()], true).unwrap();
    assert_eq!(code, format!("{}{}", BANDS_CODE, CODEC_CODE));
}

#[test]
fn the_order_of_the_sections_plays_no_role() {
    let forward = "[a]\nen = A\nfr = B\n[b]\nde-at = C\n";
    let backward = "[b]\nde-at = C\n[a]\nen = A\nfr = B\n";
    assert_eq!(
        compile(&vec![forward.to_string()], true).unwrap(),
        compile(&vec![backward.to_string()], true).unwrap()
    );
}

#[test]
fn a_later_source_overrides_whole_keys() {
    let first = "[k]\nen = A\n";
    let second = "[k]\nen = B\nfr = C\n";
    let merged = compile(&vec![first.to_string(), second.to_string()], false).unwrap();
    assert_eq!(merged, compile(&vec![second.to_string()], false).unwrap());
    assert!(!merged.contains("\"A\""));
}

#[test]
fn placeholders_and_quotes_in_the_generated_code() {
    let code = compile(&vec!["[k]\nen = %s said \"%d%%\" \\ %#X\n".to_string()], false).unwrap();
    assert!(code.contains("$crate::Lang::En(_) => format!(\"{:} said \\\"{:}%\\\" \\\\ {:#X}\" $(, $fmt_args)*),"));
    assert!(code.contains("_ => format!(\"{:} said \\\"{:}%\\\" \\\\ {:#X}\" $(, $fmt_args)*),"));
}

#[test]
fn compile_with_a_grammar_gives_the_same_code() {
    let grammar = Grammar::new().unwrap();
    assert_eq!(
        compile_with(&grammar, &vec![BANDS.to_string()], true).unwrap(),
        compile(&vec![BANDS.to_string()], true).unwrap()
    );
}

#[test]
fn a_formatter_writes_a_compiled_catalog() {
    let grammar = Grammar::new().unwrap();
    let raw = twine::compiler::read_sources(&grammar, &vec![BANDS.to_string()]).unwrap();
    let catalog = twine::catalog::Catalog::compile(&grammar, &raw).unwrap();
    let formatter = TwineFormatter { catalog, with_codec: false };
    assert_eq!(formatter.format().unwrap(), BANDS_CODE);
    let blocks = formatter.blocks().unwrap();
    assert_eq!(blocks[0].level, 0);
    assert_eq!(blocks[2].level, 1);
    assert_eq!(blocks[3].level, 3);
    assert_eq!(lay_out(&blocks).unwrap(), BANDS_CODE);
}

#[test]
fn failures_of_the_compiler() {
    assert!(matches!(
        compile(&vec!["en = Tool\n".to_string()], false),
        Err(TwineError::MalformedCatalog { source: 0, line: 1 })
    ));
    assert!(matches!(
        compile(&vec!["[k]\n".to_string(), "\n\nen = Tool\n".to_string()], false),
        Err(TwineError::MalformedCatalog { source: 1, line: 3 })
    ));
    assert!(matches!(
        compile(&vec!["[k]\n-- = Tool\n".to_string()], false),
        Err(TwineError::MalformedLocaleTag { .. })
    ));
    assert!(matches!(
        compile(&vec!["[a b]\nen = x\n[a_b]\nen = y\n".to_string()], false),
        Err(TwineError::KeyCollision { .. })
    ));
    assert!(matches!(compile(&vec![], false), Err(TwineError::NoLocale)));
    assert!(matches!(compile(&vec!["[k]\n".to_string()], false), Err(TwineError::NoLocale)));
}

#[test]
fn a_block_is_dedented_and_indented() {
    let block = |level: u32, text: &str| Block { level, text: text.to_string() };
    assert_eq!(lay_out(&vec![]).unwrap(), "");
    assert_eq!(
        lay_out(&vec![block(0, "\n        a {\n            b\n        }\n        ")]).unwrap(),
        "a {\n    b\n}\n"
    );
    assert_eq!(
        lay_out(&vec![block(2, "\n    a\n\n    b\n    "), block(1, "\n  c\n")]).unwrap(),
        "        a\n\n        b\n    c\n"
    );
    assert_eq!(lay_out(&vec![block(3, "as it is")]).unwrap(), "as it is");
}

#[test]
fn blocks_of_blanks_and_line_feeds() {
    let block = |level: u32, text: &str| Block { level, text: text.to_string() };
    assert_eq!(lay_out(&vec![block(1, "\n")]).unwrap(), "\n");
    assert_eq!(lay_out(&vec![block(1, "\n\n            ")]).unwrap(), "\n");
    assert_eq!(lay_out(&vec![block(2, "")]).unwrap(), "");
    assert_eq!(lay_out(&vec![block(1, "\n\tx\n  y")]).unwrap(), "    x\n     y\n");
    assert_eq!(lay_out(&vec![block(1, "\n  é\n   日本\n")]).unwrap(), "    é\n     日本\n");
    assert_eq!(lay_out(&vec![block(0, "\n  a\n\n\n  b")]).unwrap(), "a\n\n\nb\n");
}

#[test]
fn a_line_that_starts_with_no_blank_breaks_the_layout() {
    let block = |level: u32, text: &str| Block { level, text: text.to_string() };
    assert!(starts_lines_blank("\n    a\n\n    b\n"));
    assert!(starts_lines_blank("no line feed"));
    assert!(starts_lines_blank(""));
    assert!(!starts_lines_blank("\n    a\nb\n"));
    assert!(!starts_lines_blank("\né"));
    assert!(matches!(
        lay_out(&vec![block(0, "\n    a\n"), block(0, "\n    a\né")]),
        Err(TwineError::BrokenLayout)
    ));
}

#[test]
fn a_thousand_sources() {
    let sources: Vec<String> = (0..1000)
        .map(|i| {
            format!(
                r#"
                [band_tool_{}]
                    en = Tool
                    fr = Outil
                "#,
                i,
            )
        })
        .collect();
    let code = compile(&sources, false).unwrap();
    assert!(code.contains("(band_tool_0 $(, $fmt_args:expr)* => $lang:expr) => {{"));
    assert!(code.contains("(band_tool_999 $(, $fmt_args:expr)* => $lang:expr) => {{"));
    assert_eq!(code.matches("$crate::Lang::Fr(_) => format!(\"Outil\" $(, $fmt_args)*),").count(), 1000);
}

#[test]
fn unusual_text_compiles() {
    let source = "[früh.stück]\r\n\tde = Frühstück 🥐 \"gut\" \\ {x}\r\n\tde-at = Jause %d%%\r\n\
                  [日本]\n  ja = 日本語 %@\n  pt_BR = Olá\n  zh-hant = 繁體\n\n; trailing comment";
    let code = compile(&vec![source.to_string()], true).unwrap();
    assert!(code.contains("(früh__stück $(, $fmt_args:expr)* => $lang:expr) => {{"));
    let key = TwineFormatter::normalize_key("日本");
    assert!(code.contains(&format!("({} $(, $fmt_args:expr)* => $lang:expr) => {{{{", key)));
    assert!(code.contains("$crate::Lang::De(_) => format!(\"Frühstück 🥐 \\\"gut\\\" \\\\ {x}\" $(, $fmt_args)*),"));
    assert!(code.contains("$crate::Lang::De(\"at\") => format!(\"Jause {:}%\" $(, $fmt_args)*),"));
    assert!(code.contains("$crate::Lang::Ja(_) => format!(\"日本語 {:}\" $(, $fmt_args)*),"));
    assert!(code.contains("$crate::Lang::PtBr(_) => format!(\"Olá\" $(, $fmt_args)*),"));
    assert!(code.contains("$crate::Lang::Zh(\"hant\") => format!(\"繁體\" $(, $fmt_args)*),"));
    assert!(code.contains("    fn default() -> Self { Lang::De(\"\") }\n"));
    assert!(code.contains("\"pt_br\" => Ok(Lang::PtBr(region)),"));
    assert_eq!(code, compile(&vec![source.to_string()], true).unwrap());
}

#[test]
fn accepted_blocks_are_laid_out() {
    let alphabet = [' ', '\t', '\n', '\r', '\x0C', 'a', 'é', '日', '🥐', '\n', ' '];
    let mut seed: u64 = 0x2545_F491_4F6C_DD1D;
    let mut next = || {
        seed = seed.wrapping_mul(6364136223846793005).wrapping_add(1442695040888963407);
        (seed >> 33) as usize
    };
    let mut accepted = 0;
    for _ in 0..20000 {
        let length = next() % 14;
        let mut text = String::new();
        if next() % 4 != 0 {
            text.push('\n');
        }
        for _ in 0..length {
            text.push(alphabet[next() % alphabet.len()]);
        }
        let level = (next() % 4) as u32;
        if starts_lines_blank(&text) {
            accepted += 1;
            let out = lay_out(&vec![Block { level, text: text.clone() }]).unwrap();
            if !text.starts_with('\n') {
                assert_eq!(out, text);
            } else {
                assert!(out.ends_with('\n'));
            }
        } else {
            assert!(lay_out(&vec![Block { level, text }]).is_err());
        }
    }
    assert!(accepted > 1000);
}

#[test]
fn justification_in_the_generated_code() {
    let code = compile(&vec!["[k]\nen = [%-5d] [%6s] [%6d]\n".to_string()], false).unwrap();
    assert!(code.contains(
        "$crate::Lang::En(_) => format!(\"[{:<5}] [{:>6}] [{:6}]\" $(, $fmt_args)*),"
    ));
    assert_eq!(format!("[{:<5}] [{:>6}] [{:6}]", 42, "abc", 42), "[42   ] [   abc] [    42]");
}
