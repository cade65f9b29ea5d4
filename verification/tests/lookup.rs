use twine::catalog::Catalog;
use twine::catalog::CatalogEntry;
use twine::catalog::Translation;
use twine::compiler::read_sources;
use twine::dispatch::arm_comes_before;
use twine::dispatch::arms_of;
use twine::error::TwineError;
use twine::locale::LocaleTag;
use twine::pattern::Grammar;
use twine::template::FormatTemplate;
use twine::template::Segment;

fn catalog(text: &str) -> Catalog {
    let grammar = Grammar::new().unwrap();
    let raw = read_sources(&grammar, &vec![text.to_string()]).unwrap();
    Catalog::compile(&grammar, &raw).unwrap()
}

fn tag(language: &str, region: Option<&str>) -> LocaleTag {
    LocaleTag { language: language.to_string(), region: region.map(|r| r.to_string()) }
}

fn resolve(catalog: &Catalog, key: &str, language: &str, region: Option<&str>) -> String {
    catalog.lookup(key, &tag(language, region)).unwrap().template.render()
}

const BANDS: &str = "
    [band_tool]
        en-us = Tool (US)
        en-gb = Tool (GB)
        fr = Outil
    [band_the_doors]
        en = The Doors
        en-gb = The Doors (GB)
        fr = Les portes
    ";

#[test]
fn fallback_behavior() {
    let bands = catalog(BANDS);
    assert_eq!(resolve(&bands, "band_tool", "Fr", None), "Outil");
    assert_eq!(resolve(&bands, "band_tool", "En", Some("ca")), "Tool (US)");
}

#[test]
fn a_region_is_preferred_to_the_bare_language() {
    let bands = catalog(BANDS);
    assert_eq!(resolve(&bands, "band_tool", "En", Some("gb")), "Tool (GB)");
    assert_eq!(resolve(&bands, "band_tool", "En", Some("us")), "Tool (US)");
    assert_eq!(resolve(&bands, "band_the_doors", "En", Some("gb")), "The Doors (GB)");
}

#[test]
fn the_bare_language_serves_its_other_regions() {
    let bands = catalog(BANDS);
    assert_eq!(resolve(&bands, "band_the_doors", "En", Some("us")), "The Doors");
    assert_eq!(resolve(&bands, "band_the_doors", "En", None), "The Doors");
    assert_eq!(resolve(&bands, "band_tool", "Fr", Some("be")), "Outil");
}

#[test]
fn an_unlisted_language_gets_the_first_translation() {
    let bands = catalog(BANDS);
    assert_eq!(resolve(&bands, "band_tool", "De", None), "Tool (US)");
    assert_eq!(resolve(&bands, "band_the_doors", "De", Some("at")), "The Doors");
    assert_eq!(resolve(&bands, "band_tool", "En", None), "Tool (US)");
}

#[test]
fn unknown_key_rejection() {
    let bands = catalog(BANDS);
    match bands.lookup("band_nirvana", &tag("En", None)) {
        Err(TwineError::UnresolvedKey { key }) => assert_eq!(key, "band_nirvana"),
        other => panic!("{:?}", other),
    }
    assert!(bands.get("band_nirvana").is_none());
    assert!(bands.get("band_tool").is_some());
}

#[test]
fn a_key_without_translations_resolves_to_nothing() {
    let both = catalog("[empty]\n[full]\nen = x\n");
    assert!(matches!(
        both.lookup("empty", &tag("En", None)),
        Err(TwineError::UnresolvedKey { .. })
    ));
    assert_eq!(resolve(&both, "full", "En", None), "x");
}

#[test]
fn keys_are_looked_up_by_their_identifier() {
    let named = catalog("[band.tool]\nen = Tool\n[BandTheDoors]\nen = The Doors\n");
    assert_eq!(resolve(&named, "band__tool", "En", None), "Tool");
    assert_eq!(resolve(&named, "band_the_doors", "En", None), "The Doors");
    assert!(named.lookup("band.tool", &tag("En", None)).is_err());
    assert!(named.lookup("BandTheDoors", &tag("En", None)).is_err());
}

#[test]
fn entries_stand_in_the_order_of_their_keys() {
    let bands = catalog("[zebra]\nen = z\n[apple]\nen = a\n[mango]\nen = m\n");
    let keys: Vec<&str> = bands.entries().iter().map(|e| e.key.as_str()).collect();
    assert_eq!(keys, vec!["apple", "mango", "zebra"]);
    assert_eq!(bands.len(), 3);
}

#[test]
fn two_keys_with_one_identifier_collide() {
    let grammar = Grammar::new().unwrap();
    let raw = read_sources(&grammar, &vec!["[BandTool]\nen = a\n[band_tool]\nen = b\n".to_string()])
        .unwrap();
    match Catalog::compile(&grammar, &raw) {
        Err(TwineError::KeyCollision { key }) => assert_eq!(key, "band_tool"),
        other => panic!("{:?}", other),
    }
}

#[test]
fn a_malformed_tag_stops_the_compilation() {
    let grammar = Grammar::new().unwrap();
    let raw = read_sources(&grammar, &vec!["[k]\nen = a\n?! = b\n".to_string()]).unwrap();
    match Catalog::compile(&grammar, &raw) {
        Err(TwineError::MalformedLocaleTag { tag }) => assert_eq!(tag, "?!"),
        other => panic!("{:?}", other),
    }
}

#[test]
fn a_catalog_with_every_baseline() {
    let full = catalog("[a]\nen = A\nfr = B\nen-gb = C\n[b]\nfr = D\nen = E\n");
    assert!(full.covers_baselines());
    assert!(catalog("[a]\nen = A\n").covers_baselines());
}

#[test]
fn a_catalog_that_lacks_a_baseline() {
    assert!(!catalog(BANDS).covers_baselines());
    assert!(!catalog("[a]\nen = A\nfr = B\n[b]\nen = C\n").covers_baselines());
    assert!(!catalog("[a]\nen-gb = A\n").covers_baselines());
}

fn entry(key: &str, list: &[(&str, Option<&str>, &str)]) -> twine::catalog::CatalogEntry {
    CatalogEntry {
        key: key.to_string(),
        translations: list
            .iter()
            .map(|(language, region, text)| Translation {
                locale: tag(language, *region),
                template: FormatTemplate { segments: vec![Segment::Literal(text.to_string())] },
            })
            .collect(),
    }
}

#[test]
fn entries_are_arranged_by_key() {
    let arranged = Catalog::arrange(vec![
        entry("b", &[("En", None, "B")]),
        entry("c", &[("En", None, "C")]),
        entry("a", &[("En", None, "A"), ("En", Some("gb"), "A-gb")]),
    ])
    .unwrap();
    let keys: Vec<&str> = arranged.entries().iter().map(|e| e.key.as_str()).collect();
    assert_eq!(keys, vec!["a", "b", "c"]);
    assert_eq!(resolve(&arranged, "a", "En", Some("gb")), "A-gb");
    assert_eq!(resolve(&arranged, "a", "En", Some("us")), "A");
    assert_eq!(resolve(&arranged, "c", "Fr", None), "C");
    assert_eq!(Catalog::arrange(vec![]).unwrap().len(), 0);
}

#[test]
fn arranging_finds_a_key_that_stands_twice() {
    let twice = Catalog::arrange(vec![
        entry("a", &[("En", None, "A")]),
        entry("b", &[("En", None, "B")]),
        entry("a", &[("Fr", None, "C")]),
    ]);
    match twice {
        Err(TwineError::KeyCollision { key }) => assert_eq!(key, "a"),
        other => panic!("{:?}", other),
    }
}

#[test]
fn arms_stand_by_language_with_regions_first() {
    let e = entry(
        "k",
        &[
            ("Fr", None, "1"),
            ("En", None, "2"),
            ("En", Some("us"), "3"),
            ("De", Some("at"), "4"),
            ("En", Some("gb"), "5"),
            ("Fr", Some("be"), "6"),
            ("En", None, "7"),
        ],
    );
    let order: Vec<String> = arms_of(&e.translations).iter().map(|t| t.template.render()).collect();
    assert_eq!(order, vec!["4", "3", "5", "2", "7", "6", "1"]);
    assert!(arm_comes_before(&e.translations[2], &e.translations[1]));
    assert!(!arm_comes_before(&e.translations[1], &e.translations[2]));
    assert!(!arm_comes_before(&e.translations[2], &e.translations[4]));
    assert!(!arm_comes_before(&e.translations[4], &e.translations[2]));
    assert!(arm_comes_before(&e.translations[3], &e.translations[1]));
}

const DOCUMENTED: &str = "
[app_ruin_the_band]
    en = Ruin a band name by translating it in French
    fr = Ruiner le nom d'un groupe en le traduisant en français
[band_tool]
    en = Tool
    fr = Outil
[band_the_doors]
    en = The Doors
    fr = Les portes
[band_rage_against_the_machine]
    en = Rage Against the Machine
    en-gb = Wrath Against the Machine
    fr = Colère contre la machine
[band_the_jackson_5]
    en = The Jackson 5
    fr = Les 5 fils de Jack
[format_string]
    en = %s, %@!
    fr = %s, %@ !
[format_percentage]
    en = %.0f%
    fr = %.0f %
[format_hexadecimal]
    en = %x
    fr = %#X
";

#[test]
fn the_documented_catalog_in_french() {
    let c = catalog(DOCUMENTED);
    assert_eq!(
        resolve(&c, "app_ruin_the_band", "Fr", None),
        "Ruiner le nom d'un groupe en le traduisant en français"
    );
    assert_eq!(resolve(&c, "band_rage_against_the_machine", "Fr", None), "Colère contre la machine");
    assert_eq!(resolve(&c, "format_string", "Fr", None), "{:}, {:} !");
    assert_eq!(format!("{:}, {:} !", "Hello", "World"), "Hello, World !");
    assert_eq!(resolve(&c, "format_percentage", "Fr", None), "{:.0} %");
    assert_eq!(format!("{:.0} %", 73.02f32), "73 %");
    assert_eq!(resolve(&c, "format_hexadecimal", "Fr", None), "{:#X}");
    assert_eq!(format!("{:#X}", 0xBAD_CAFE), "0xBADCAFE");
}

#[test]
fn the_documented_catalog_in_english() {
    let c = catalog(DOCUMENTED);
    for region in [None, Some("gb")] {
        assert_eq!(
            resolve(&c, "app_ruin_the_band", "En", region),
            "Ruin a band name by translating it in French"
        );
        assert_eq!(resolve(&c, "format_string", "En", region), "{:}, {:}!");
        assert_eq!(resolve(&c, "format_percentage", "En", region), "{:.0}%");
        assert_eq!(resolve(&c, "format_hexadecimal", "En", region), "{:x}");
    }
    assert_eq!(format!("{:}, {:}!", "Hello", "World"), "Hello, World!");
    assert_eq!(format!("{:.0}%", 73.02f32), "73%");
    assert_eq!(format!("{:x}", 0xBAD_CAFE), "badcafe");
    assert_eq!(resolve(&c, "band_rage_against_the_machine", "En", None), "Rage Against the Machine");
    assert_eq!(
        resolve(&c, "band_rage_against_the_machine", "En", Some("gb")),
        "Wrath Against the Machine"
    );
    assert!(c.covers_baselines());
    let locales: Vec<(String, Option<String>)> =
        c.locales().tags().iter().map(|t| (t.language.clone(), t.region.clone())).collect();
    assert_eq!(
        locales,
        vec![
            ("En".to_string(), None),
            ("En".to_string(), Some("gb".to_string())),
            ("Fr".to_string(), None),
        ]
    );
}
