use twine::text::append_decimal;
use twine::text::chars_of;
use twine::text::insert_text;
use twine::text::replace_dots;
use twine::text::split_at_first;
use twine::text::string_of;
use twine::text::text_eq;
use twine::text::text_less;
use twine::text::text_rank;

#[test]
fn characters_and_back() {
    for text in ["", "a", "français", "日本語 %d"] {
        let chars = chars_of(text);
        assert_eq!(chars, text.chars().collect::<Vec<char>>());
        assert_eq!(string_of(&chars), text);
    }
}

#[test]
fn equal_texts() {
    assert!(text_eq("", ""));
    assert!(text_eq("en", "en"));
    assert!(!text_eq("en", "En"));
    assert!(!text_eq("en", "en "));
    assert!(!text_eq("en", ""));
}

#[test]
fn texts_in_lexicographic_order() {
    assert!(text_less("", "a"));
    assert!(text_less("a", "b"));
    assert!(text_less("a", "ab"));
    assert!(text_less("ab", "b"));
    assert!(text_less("En", "Fr"));
    assert!(text_less("Z", "a"));
    assert!(text_less("z", "é"));
    assert!(!text_less("a", "a"));
    assert!(!text_less("b", "a"));
    assert!(!text_less("ab", "a"));
    assert!(!text_less("", ""));
}

#[test]
fn the_order_is_the_order_of_strings() {
    let texts = ["", "a", "ab", "b", "B", "é", "日本", "~", "a b", "a_b"];
    for a in texts {
        for b in texts {
            assert_eq!(text_less(a, b), a < b);
            assert_eq!(text_eq(a, b), a == b);
        }
    }
}

#[test]
fn dots_become_double_underscores() {
    assert_eq!(replace_dots("a.b"), "a__b");
    assert_eq!(replace_dots("..."), "______");
    assert_eq!(replace_dots("no dot"), "no dot");
    assert_eq!(replace_dots(""), "");
}

#[test]
fn a_text_is_split_at_its_first_separator() {
    let pair = |a: &str, b: &str| (a.to_string(), b.to_string());
    assert_eq!(split_at_first("en_gb", '_'), pair("en", "gb"));
    assert_eq!(split_at_first("en", '_'), pair("en", ""));
    assert_eq!(split_at_first("en_", '_'), pair("en", ""));
    assert_eq!(split_at_first("_gb", '_'), pair("", "gb"));
    assert_eq!(split_at_first("a_b_c", '_'), pair("a", "b_c"));
    assert_eq!(split_at_first("", '_'), pair("", ""));
}

#[test]
fn numbers_in_decimal() {
    for (n, text) in [(0usize, "0"), (7, "7"), (10, "10"), (42, "42"), (1000, "1000"), (90817, "90817")] {
        let mut out = String::from("n=");
        append_decimal(&mut out, n);
        assert_eq!(out, format!("n={}", text));
    }
    let mut out = String::new();
    append_decimal(&mut out, usize::MAX);
    assert_eq!(out, usize::MAX.to_string());
}

#[test]
fn texts_kept_in_order() {
    let mut texts: Vec<String> = Vec::new();
    for t in ["us", "gb", "be", "gb", "at", "us"] {
        insert_text(&mut texts, t.to_string());
    }
    assert_eq!(texts, vec!["at", "be", "gb", "us"]);
    assert_eq!(text_rank(&texts, "a"), 0);
    assert_eq!(text_rank(&texts, "at"), 1);
    assert_eq!(text_rank(&texts, "ca"), 2);
    assert_eq!(text_rank(&texts, "zz"), 4);
}
