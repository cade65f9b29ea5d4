use twine::compiler::read_sources;
use twine::error::TwineError;
use twine::pattern::Grammar;
use twine::reader::CatalogReader;
use twine::reader::RawCatalog;
use twine::reader::key_value_in;
use twine::reader::section_name_in;
use twine::text::split_lines;

fn pairs(list: &[(&str, &str)]) -> Vec<(String, String)> {
    list.iter().map(|(a, b)| (a.to_string(), b.to_string())).collect()
}

#[test]
fn grammar_is_accepted() {
    assert!(Grammar::new().is_ok());
}

#[test]
fn split_lines_follows_line_feeds() {
    assert_eq!(split_lines(""), Vec::<String>::new());
    assert_eq!(split_lines("a"), vec!["a"]);
    assert_eq!(split_lines("a\n"), vec!["a"]);
    assert_eq!(split_lines("a\n\nb"), vec!["a", "", "b"]);
    assert_eq!(split_lines("\n"), vec![""]);
}

#[test]
fn split_lines_drops_a_carriage_return_before_a_line_feed() {
    assert_eq!(split_lines("a\r\nb\r\n"), vec!["a", "b"]);
    assert_eq!(split_lines("a\r"), vec!["a\r"]);
    assert_eq!(split_lines("a\r\r\n"), vec!["a\r"]);
}

#[test]
fn reads_sections_and_pairs() {
    let grammar = Grammar::new().unwrap();
    let text = "
        ; a comment
        [band_tool]
            en = Tool
            fr = Outil
        # another comment

        [band_the_doors]
            en = The Doors
        ";
    let catalog = RawCatalog::read(&grammar, text).unwrap();
    assert_eq!(catalog.len(), 2);
    assert_eq!(catalog.entries()[0].key, "band_tool");
    assert_eq!(catalog.entries()[0].translations, pairs(&[("en", "Tool"), ("fr", "Outil")]));
    assert_eq!(catalog.entries()[1].key, "band_the_doors");
    assert_eq!(catalog.entries()[1].translations, pairs(&[("en", "The Doors")]));
    assert_eq!(catalog.get("band_tool"), Some(&pairs(&[("en", "Tool"), ("fr", "Outil")])));
    assert_eq!(catalog.get("missing"), None);
}

#[test]
fn trims_the_value_and_keeps_inner_blanks() {
    let grammar = Grammar::new().unwrap();
    let catalog = RawCatalog::read(&grammar, "[k]\n  en   =    two  words   \n").unwrap();
    assert_eq!(catalog.entries()[0].translations, pairs(&[("en", "two  words")]));
}

#[test]
fn a_section_opened_again_goes_on() {
    let grammar = Grammar::new().unwrap();
    let catalog = RawCatalog::read(&grammar, "[k]\nen = A\n[other]\nen = O\n[k]\nfr = B\n").unwrap();
    assert_eq!(catalog.len(), 2);
    assert_eq!(catalog.get("k"), Some(&pairs(&[("en", "A"), ("fr", "B")])));
}

#[test]
fn a_header_line_may_hold_a_pair_too() {
    let grammar = Grammar::new().unwrap();
    let catalog = RawCatalog::read(&grammar, "[a] = b\n").unwrap();
    assert_eq!(catalog.entries()[0].key, "a");
    assert_eq!(catalog.entries()[0].translations, pairs(&[("[a]", "b")]));
}

#[test]
fn a_pair_before_any_section_is_malformed() {
    let grammar = Grammar::new().unwrap();
    assert_eq!(RawCatalog::read(&grammar, "en = Tool\n[k]\n").unwrap_err(), 1);
    assert_eq!(RawCatalog::read(&grammar, "\n; note\n  en = Tool\n[k]\n").unwrap_err(), 3);
}

#[test]
fn a_malformed_source_is_named_with_its_line() {
    let grammar = Grammar::new().unwrap();
    let sources = vec!["[k]\nen = A\n".to_string(), "\nfr = B\n".to_string()];
    match read_sources(&grammar, &sources) {
        Err(TwineError::MalformedCatalog { source, line }) => {
            assert_eq!(source, 1);
            assert_eq!(line, 2);
        }
        other => panic!("{:?}", other),
    }
}

#[test]
fn whole_key_override() {
    let grammar = Grammar::new().unwrap();
    let sources = vec!["[k]\nen = A\n".to_string(), "[k]\nen = B\nfr = C\n".to_string()];
    let catalog = read_sources(&grammar, &sources).unwrap();
    assert_eq!(catalog.len(), 1);
    assert_eq!(catalog.get("k"), Some(&pairs(&[("en", "B"), ("fr", "C")])));
}

#[test]
fn a_merge_keeps_the_keys_that_the_later_source_lacks() {
    let grammar = Grammar::new().unwrap();
    let mut base = RawCatalog::read(&grammar, "[a]\nen = A\n[b]\nen = B\n").unwrap();
    let other = RawCatalog::read(&grammar, "[c]\nen = C\n[a]\nfr = Z\n").unwrap();
    base.merge(other);
    assert_eq!(base.len(), 3);
    assert_eq!(base.get("a"), Some(&pairs(&[("fr", "Z")])));
    assert_eq!(base.get("b"), Some(&pairs(&[("en", "B")])));
    assert_eq!(base.get("c"), Some(&pairs(&[("en", "C")])));
    assert_eq!(base.entries()[0].key, "a");
    assert_eq!(base.entries()[2].key, "c");
}

#[test]
fn names_and_pairs_in_the_groups_of_a_line() {
    let some = |s: &str| Some(s.to_string());
    assert_eq!(section_name_in(&Some(vec![some("[k]"), some("k")])), some("k"));
    assert_eq!(section_name_in(&Some(vec![some("[k]"), None])), None);
    assert_eq!(section_name_in(&Some(vec![some("[k]")])), None);
    assert_eq!(section_name_in(&None), None);
    assert_eq!(
        key_value_in(&Some(vec![some("en = A"), some("en"), some("A")])),
        Some(("en".to_string(), "A".to_string()))
    );
    assert_eq!(key_value_in(&Some(vec![some("en = A"), some("en"), None])), None);
    assert_eq!(key_value_in(&Some(vec![some("en = A"), some("en")])), None);
    assert_eq!(key_value_in(&None), None);
}

#[test]
fn a_reader_is_fed_line_by_line() {
    let name = |s: &str| Some(s.to_string());
    let pair = |a: &str, b: &str| Some((a.to_string(), b.to_string()));
    let mut reader = CatalogReader::new();
    assert!(reader.feed(None, None));
    assert!(!reader.feed(None, pair("en", "early")));
    assert!(reader.feed(name("a"), None));
    assert!(reader.feed(None, pair("en", "A")));
    assert!(reader.feed(name("b"), pair("fr", "B")));
    assert!(reader.feed(name("a"), None));
    assert!(reader.feed(None, pair("fr", "C")));
    let catalog = reader.finish();
    assert_eq!(catalog.len(), 2);
    assert_eq!(catalog.get("a"), Some(&pairs(&[("en", "A"), ("fr", "C")])));
    assert_eq!(catalog.get("b"), Some(&pairs(&[("fr", "B")])));
}
