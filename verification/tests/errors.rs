use twine::error::TwineError;

#[test]
fn a_message_names_the_source_and_the_line() {
    let e = TwineError::MalformedCatalog { source: 2, line: 17 };
    assert_eq!(e.message(), "key-value outside section at line 17 of source 2");
    let e = TwineError::MalformedCatalog { source: 0, line: 1 };
    assert_eq!(e.message(), "key-value outside section at line 1 of source 0");
    let e = TwineError::MalformedCatalog { source: 10, line: 1000 };
    assert_eq!(e.message(), "key-value outside section at line 1000 of source 10");
}

#[test]
fn a_message_names_what_was_wrong() {
    assert_eq!(
        TwineError::MalformedLocaleTag { tag: "--".to_string() }.message(),
        "no language in the locale tag: --"
    );
    assert_eq!(
        TwineError::KeyCollision { key: "band_tool".to_string() }.message(),
        "two keys give the identifier: band_tool"
    );
    assert_eq!(
        TwineError::UnresolvedKey { key: "band_nirvana".to_string() }.message(),
        "no such key: band_nirvana"
    );
    assert_eq!(
        TwineError::UnknownLocaleOnDecode { text: "xx_YY".to_string() }.message(),
        "unknown language or region: xx_YY"
    );
    assert_eq!(
        TwineError::InvalidPattern.message(),
        "the patterns of the catalog syntax were rejected"
    );
    assert_eq!(TwineError::NoLocale.message(), "the catalog holds no translation");
    assert_eq!(
        TwineError::BrokenLayout.message(),
        "a line of the generated code starts with no blank"
    );
}
