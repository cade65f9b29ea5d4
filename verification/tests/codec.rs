use twine::codec::decode;
use twine::codec::encode;
use twine::codec::pick;
use twine::error::TwineError;
use twine::locale::LocaleSet;
use twine::locale::LocaleTag;

fn tag(language: &str, region: Option<&str>) -> LocaleTag {
    LocaleTag { language: language.to_string(), region: region.map(|r| r.to_string()) }
}

fn locales() -> LocaleSet {
    let mut set = LocaleSet::new();
    set.insert(tag("En", None));
    set.insert(tag("En", Some("gb")));
    set.insert(tag("Fr", None));
    set
}

#[test]
fn codec_round_trip() {
    let set = locales();
    assert_eq!(encode(&tag("En", Some("gb"))), "en_GB");
    let gb = decode(&set, "en_gb").unwrap();
    assert_eq!(gb.language, "En");
    assert_eq!(gb.region, Some("gb".to_string()));
    let en = decode(&set, "EN").unwrap();
    assert_eq!(en.language, "En");
    assert_eq!(en.region, None);
    match decode(&set, "xx_YY") {
        Err(TwineError::UnknownLocaleOnDecode { text }) => assert_eq!(text, "xx_YY"),
        other => panic!("{:?}", other),
    }
}

#[test]
fn encode_leaves_an_absent_or_empty_region_out() {
    assert_eq!(encode(&tag("En", None)), "en");
    assert_eq!(encode(&tag("En", Some(""))), "en");
    assert_eq!(encode(&tag("Fr", Some("be"))), "fr_BE");
}

#[test]
fn decode_rejects_what_the_catalog_does_not_know() {
    let set = locales();
    assert!(decode(&set, "de").is_err());
    assert!(decode(&set, "en_us").is_err());
    assert!(decode(&set, "").is_err());
    assert!(decode(&set, "_gb").is_err());
    assert!(decode(&set, "en_gb_x").is_err());
}

#[test]
fn decode_takes_any_known_region_with_any_known_language() {
    let set = locales();
    let tag = decode(&set, "fr_GB").unwrap();
    assert_eq!(tag.language, "Fr");
    assert_eq!(tag.region, Some("gb".to_string()));
}

#[test]
fn a_decoded_name_is_encoded_in_its_canonical_form() {
    let set = locales();
    for (name, canonical) in [
        ("en", "en"),
        ("EN", "en"),
        ("en_gb", "en_GB"),
        ("En_Gb", "en_GB"),
        ("EN_GB", "en_GB"),
        ("fr", "fr"),
        ("fr_", "fr"),
    ] {
        assert_eq!(encode(&decode(&set, name).unwrap()), canonical);
    }
}

#[test]
fn a_language_name_and_a_region_pick_a_locale() {
    let texts = |list: &[&str]| list.iter().map(|s| s.to_string()).collect::<Vec<String>>();
    let names = texts(&["en", "fr"]);
    let languages = texts(&["En", "Fr"]);
    let regions = texts(&["be", "gb"]);
    let en = pick(&names, &languages, &regions, "en", String::new()).unwrap();
    assert_eq!((en.language.as_str(), en.region), ("En", None));
    let fr = pick(&names, &languages, &regions, "fr", "be".to_string()).unwrap();
    assert_eq!((fr.language.as_str(), fr.region), ("Fr", Some("be".to_string())));
    assert!(pick(&names, &languages, &regions, "de", String::new()).is_none());
    assert!(pick(&names, &languages, &regions, "En", String::new()).is_none());
    assert!(pick(&names, &languages, &regions, "en", "us".to_string()).is_none());
    assert!(pick(&names, &texts(&["En"]), &regions, "fr", String::new()).is_none());
}
