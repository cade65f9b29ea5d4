use twine::catalog::normalize;
use twine::emit::TwineFormatter;

#[test]
fn normalize_key_makes_snake_case() {
    assert_eq!(TwineFormatter::normalize_key("BandTool"), "band_tool");
    assert_eq!(TwineFormatter::normalize_key("band_the_doors"), "band_the_doors");
    assert_eq!(TwineFormatter::normalize_key("Band The Doors"), "band_the_doors");
}

#[test]
fn normalize_key_doubles_dots_into_underscores() {
    assert_eq!(TwineFormatter::normalize_key("name.with.dot"), "name__with__dot");
    assert_eq!(TwineFormatter::normalize_key("a.b"), "a__b");
}

#[test]
fn normalize_key_is_the_same_on_every_call() {
    let first = TwineFormatter::normalize_key("Mixed.Case Key");
    for _ in 0..10 {
        assert_eq!(TwineFormatter::normalize_key("Mixed.Case Key"), first);
    }
    assert_eq!(normalize("Mixed.Case Key"), first);
}

#[test]
fn normalize_key_leaves_no_dot() {
    for key in ["a.b.c", "...", "x", "", "A.B", "1.2.3"] {
        assert!(!TwineFormatter::normalize_key(key).contains('.'));
    }
}
