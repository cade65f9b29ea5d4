use twine::catalog::Catalog;
use twine::compiler::read_sources;
use twine::error::TwineError;
use twine::locale::LocaleSet;
use twine::locale::LocaleTag;
use twine::pattern::Grammar;

fn tag(language: &str, region: Option<&str>) -> LocaleTag {
    LocaleTag { language: language.to_string(), region: region.map(|r| r.to_string()) }
}

fn shown(set: &LocaleSet) -> Vec<(String, Option<String>)> {
    set.tags().iter().map(|t| (t.language.clone(), t.region.clone())).collect()
}

#[test]
fn parses_language_and_region() {
    let grammar = Grammar::new().unwrap();
    let en = LocaleTag::parse(&grammar, "en").unwrap();
    assert_eq!(en.language, "En");
    assert_eq!(en.region, None);
    let gb = LocaleTag::parse(&grammar, "en-gb").unwrap();
    assert_eq!(gb.language, "En");
    assert_eq!(gb.region, Some("gb".to_string()));
}

#[test]
fn a_tag_without_a_word_is_malformed() {
    let grammar = Grammar::new().unwrap();
    match LocaleTag::parse(&grammar, "--") {
        Err(TwineError::MalformedLocaleTag { tag }) => assert_eq!(tag, "--"),
        other => panic!("{:?}", other),
    }
    assert!(LocaleTag::parse(&grammar, "").is_err());
}

#[test]
fn tags_order_by_language_then_region() {
    let en = tag("En", None);
    let en_gb = tag("En", Some("gb"));
    let en_us = tag("En", Some("us"));
    let fr = tag("Fr", None);
    assert!(en.comes_before(&en_gb));
    assert!(en_gb.comes_before(&en_us));
    assert!(en_us.comes_before(&fr));
    assert!(en.comes_before(&fr));
    assert!(!en_gb.comes_before(&en));
    assert!(!fr.comes_before(&en_us));
    assert!(!en.comes_before(&en));
    assert!(en.same_as(&tag("En", None)));
    assert!(!en.same_as(&en_gb));
    assert!(en_gb.duplicate().same_as(&en_gb));
}

#[test]
fn locale_ordering() {
    let grammar = Grammar::new().unwrap();
    let sources = vec!["[k]\nfr = C\nen-gb = B\nen = A\n".to_string()];
    let raw = read_sources(&grammar, &sources).unwrap();
    let catalog = Catalog::compile(&grammar, &raw).unwrap();
    let locales = catalog.locales();
    assert_eq!(
        shown(&locales),
        vec![
            ("En".to_string(), None),
            ("En".to_string(), Some("gb".to_string())),
            ("Fr".to_string(), None),
        ]
    );
    let default = locales.default_locale().unwrap();
    assert_eq!(default.language, "En");
    assert_eq!(default.region, None);
}

#[test]
fn a_set_holds_every_tag_once() {
    let mut set = LocaleSet::new();
    assert!(set.default_locale().is_none());
    set.insert(tag("Fr", Some("be")));
    set.insert(tag("En", Some("us")));
    set.insert(tag("Fr", Some("be")));
    set.insert(tag("En", None));
    set.insert(tag("En", Some("gb")));
    set.insert(tag("En", Some("us")));
    assert_eq!(set.len(), 4);
    assert_eq!(
        shown(&set),
        vec![
            ("En".to_string(), None),
            ("En".to_string(), Some("gb".to_string())),
            ("En".to_string(), Some("us".to_string())),
            ("Fr".to_string(), Some("be".to_string())),
        ]
    );
    assert!(set.contains(&tag("En", Some("gb"))));
    assert!(!set.contains(&tag("Fr", None)));
    assert_eq!(set.languages(), vec!["En", "Fr"]);
    assert_eq!(set.regions(), vec!["be", "gb", "us"]);
}

#[test]
fn the_order_of_insertion_plays_no_role() {
    let tags = [("Fr", None), ("En", Some("gb")), ("En", None), ("De", Some("at"))];
    let mut forward = LocaleSet::new();
    for (l, r) in tags.iter() {
        forward.insert(tag(l, *r));
    }
    let mut backward = LocaleSet::new();
    for (l, r) in tags.iter().rev() {
        backward.insert(tag(l, *r));
    }
    assert_eq!(shown(&forward), shown(&backward));
}

#[test]
fn language_and_region_in_the_groups_of_a_tag() {
    let some = |s: &str| Some(s.to_string());
    assert_eq!(
        LocaleTag::parts_in(&Some(vec![some("en-gb"), some("en"), some("-gb"), some("gb")])),
        Some(("en".to_string(), some("gb")))
    );
    assert_eq!(
        LocaleTag::parts_in(&Some(vec![some("en"), some("en"), None, None])),
        Some(("en".to_string(), None))
    );
    assert_eq!(LocaleTag::parts_in(&Some(vec![some("en"), None, None, None])), None);
    assert_eq!(LocaleTag::parts_in(&Some(vec![some("en"), some("en")])), None);
    assert_eq!(LocaleTag::parts_in(&None), None);
}
