use twine::pattern::Grammar;
use twine::template::Conversion;
use twine::template::FormatTemplate;
use twine::template::Placeholder;
use twine::template::Segment;

fn render(text: &str) -> String {
    let grammar = Grammar::new().unwrap();
    FormatTemplate::parse(&grammar, text).render()
}

fn source(text: &str) -> String {
    let grammar = Grammar::new().unwrap();
    FormatTemplate::parse(&grammar, text).source()
}

#[test]
fn every_conversion_has_its_placeholder() {
    assert_eq!(render("%d"), "{:}");
    assert_eq!(render("%i"), "{:}");
    assert_eq!(render("%s"), "{:}");
    assert_eq!(render("%@"), "{:}");
    assert_eq!(render("%f"), "{:}");
    assert_eq!(render("%x"), "{:x}");
    assert_eq!(render("%X"), "{:X}");
}

#[test]
fn flag_width_and_precision_are_kept() {
    assert_eq!(render("%-5d"), "{:<5}");
    assert_eq!(render("%+d"), "{:+}");
    assert_eq!(render("%#X"), "{:#X}");
    assert_eq!(render("%#x"), "{:#x}");
    assert_eq!(render("%08.3f"), "{:08.3}");
    assert_eq!(render("%.0f"), "{:.0}");
    assert_eq!(render("%10s"), "{:>10}");
    assert_eq!(render("%-10.2x"), "{:<10.2x}");
}

#[test]
fn text_around_placeholders_is_copied() {
    assert_eq!(render("%s, %@!"), "{:}, {:}!");
    assert_eq!(render("%s, %@ !"), "{:}, {:} !");
    assert_eq!(render("Colère contre la machine"), "Colère contre la machine");
    assert_eq!(render("日本語 %d 件"), "日本語 {:} 件");
    assert_eq!(render(""), "");
}

#[test]
fn percent_signs() {
    assert_eq!(render("%%"), "%");
    assert_eq!(render("100%%"), "100%");
    assert_eq!(render("%.0f%"), "{:.0}%");
    assert_eq!(render("%.0f %"), "{:.0} %");
    assert_eq!(render("%% %.0f %% foo"), "% {:.0} % foo");
}

#[test]
fn unknown_sequences_pass_through() {
    assert_eq!(render("%q"), "%q");
    assert_eq!(render("50% off"), "50% off");
    assert_eq!(render("%-q %d"), "%-q {:}");
}

#[test]
fn segments_give_the_text_back() {
    for text in ["%s, %@!", "%% %.0f %% foo", "%q", "50% off", "%-5d%#X%08.3f", "plain", "", "%"] {
        assert_eq!(source(text), text);
    }
}

#[test]
fn segments_of_a_translation() {
    let grammar = Grammar::new().unwrap();
    let template = FormatTemplate::parse(&grammar, "a%-5.2x%%b");
    assert_eq!(template.segments.len(), 4);
    match &template.segments[0] {
        Segment::Literal(text) => assert_eq!(text, "a"),
        other => panic!("{:?}", other),
    }
    match &template.segments[1] {
        Segment::Placeholder(p) => {
            assert_eq!(p.flag, Some("-".to_string()));
            assert_eq!(p.width, Some("5".to_string()));
            assert_eq!(p.precision, Some(".2".to_string()));
            assert_eq!(p.conversion, Conversion::HexLower);
        }
        other => panic!("{:?}", other),
    }
    assert!(matches!(template.segments[2], Segment::Percent));
    match &template.segments[3] {
        Segment::Literal(text) => assert_eq!(text, "b"),
        other => panic!("{:?}", other),
    }
}

#[test]
fn a_segment_from_the_groups_of_a_token() {
    let some = |s: &str| Some(s.to_string());
    let placeholder = Segment::from_groups(&vec![some("%+3.1d"), some("+"), some("3"), some(".1"), some("d")]);
    match placeholder {
        Segment::Placeholder(p) => {
            assert_eq!(p.flag, some("+"));
            assert_eq!(p.width, some("3"));
            assert_eq!(p.precision, some(".1"));
            assert_eq!(p.conversion, Conversion::Decimal);
        }
        other => panic!("{:?}", other),
    }
    assert!(matches!(
        Segment::from_groups(&vec![some("%%"), None, None, None, None]),
        Segment::Percent
    ));
    match Segment::from_groups(&vec![some("text"), None, None, None, None]) {
        Segment::Literal(text) => assert_eq!(text, "text"),
        other => panic!("{:?}", other),
    }
    match Segment::from_groups(&vec![some("%z"), None, None, None, some("z")]) {
        Segment::Literal(text) => assert_eq!(text, "%z"),
        other => panic!("{:?}", other),
    }
    match Segment::from_groups(&vec![]) {
        Segment::Literal(text) => assert_eq!(text, ""),
        other => panic!("{:?}", other),
    }
}

#[test]
fn conversion_letters() {
    for (letter, conversion) in [
        ('d', Conversion::Decimal),
        ('i', Conversion::Integer),
        ('s', Conversion::Text),
        ('@', Conversion::Object),
        ('x', Conversion::HexLower),
        ('X', Conversion::HexUpper),
        ('f', Conversion::Float),
    ] {
        assert_eq!(Conversion::from_letter(letter), Some(conversion));
        assert_eq!(conversion.letter(), letter);
    }
    assert_eq!(Conversion::from_letter('q'), None);
    assert_eq!(Conversion::from_letter('D'), None);
}

#[test]
fn a_placeholder_in_both_syntaxes() {
    let p = Placeholder {
        flag: Some("#".to_string()),
        width: Some("8".to_string()),
        precision: None,
        conversion: Conversion::HexUpper,
    };
    let mut target = String::from(">");
    p.render_into(&mut target);
    assert_eq!(target, ">{:#8X}");
    let mut origin = String::from(">");
    p.source_into(&mut origin);
    assert_eq!(origin, ">%#8X");
}

#[test]
fn round_trip_of_format_transcompilation() {
    assert_eq!(render("%d"), "{:}");
    assert_eq!(format!("{:}", 42), "42");
    assert_eq!(render("%s, %@!"), "{:}, {:}!");
    assert_eq!(format!("{:}, {:}!", "Hello", "World"), "Hello, World!");
    assert_eq!(render("%.0f%"), "{:.0}%");
    assert_eq!(format!("{:.0}%", 73.02f32), "73%");
    assert_eq!(render("%.2f"), "{:.2}");
    assert_eq!(format!("{:.2}", 3.14159f64), "3.14");
    assert_eq!(render("%x"), "{:x}");
    assert_eq!(format!("{:x}", 0xBAD_CAFE), "badcafe");
    assert_eq!(render("%X"), "{:X}");
    assert_eq!(format!("{:X}", 0xBAD_CAFE), "BADCAFE");
    assert_eq!(render("%#X"), "{:#X}");
    assert_eq!(format!("{:#X}", 0xBAD_CAFE), "0xBADCAFE");
    assert_eq!(render("%5d"), "{:5}");
    assert_eq!(format!("{:5}", 42), "   42");
    assert_eq!(render("[%-5d]"), "[{:<5}]");
    assert_eq!(format!("[{:<5}]", 42), "[42   ]");
    assert_eq!(render("[%-8x]"), "[{:<8x}]");
    assert_eq!(format!("[{:<8x}]", 0xCAFE), "[cafe    ]");
    assert_eq!(render("[%-8.2f]"), "[{:<8.2}]");
    assert_eq!(format!("[{:<8.2}]", 2.5f64), "[2.50    ]");
    assert_eq!(render("[%6s]"), "[{:>6}]");
    assert_eq!(format!("[{:>6}]", "abc"), "[   abc]");
    assert_eq!(render("[%6@]"), "[{:>6}]");
    assert_eq!(format!("[{:>6}]", "abc"), "[   abc]");
    assert_eq!(render("[%-6s]"), "[{:<6}]");
    assert_eq!(format!("[{:<6}]", "abc"), "[abc   ]");
    assert_eq!(render("[%-6@]"), "[{:<6}]");
    assert_eq!(render("[%6.2s]"), "[{:>6.2}]");
    assert_eq!(format!("[{:>6.2}]", "abc"), "[    ab]");
    assert_eq!(render("[%+5d]"), "[{:+5}]");
    assert_eq!(format!("[{:+5}]", 42), "[  +42]");
    assert_eq!(render("[%#6x]"), "[{:#6x}]");
    assert_eq!(format!("[{:#6x}]", 255), "[  0xff]");
    assert_eq!(render("%+d"), "{:+}");
    assert_eq!(format!("{:+}", 42), "+42");
    assert_eq!(render("%8.3f"), "{:8.3}");
    assert_eq!(format!("{:8.3}", 2.5f64), "   2.500");
}

#[test]
fn tokens_that_lose_text_give_one_literal() {
    let some = |s: &str| Some(s.to_string());
    let tokens = vec![
        vec![some("a "), None, None, None, None],
        vec![some("%d"), None, None, None, some("d")],
    ];
    let whole = FormatTemplate::from_tokens(&tokens, "a %d");
    assert_eq!(whole.segments.len(), 2);
    assert_eq!(whole.render(), "a {:}");
    assert_eq!(whole.source(), "a %d");
    let lossy = FormatTemplate::from_tokens(&tokens, "a %d!");
    assert_eq!(lossy.segments.len(), 1);
    assert_eq!(lossy.render(), "a %d!");
    assert_eq!(lossy.source(), "a %d!");
    let cut = FormatTemplate::cut(&tokens);
    assert_eq!(cut.render(), "a {:}");
}

#[test]
fn alignment_in_the_target_syntax() {
    assert_eq!(render("%-d"), "{:<}");
    assert_eq!(render("%-s"), "{:<}");
    assert_eq!(render("%s"), "{:}");
    assert_eq!(render("%@"), "{:}");
    assert_eq!(render("%.3s"), "{:.3}");
    assert_eq!(render("%10s"), "{:>10}");
    assert_eq!(render("%10@"), "{:>10}");
    assert_eq!(render("%10d"), "{:10}");
    assert_eq!(render("%10f"), "{:10}");
    assert_eq!(render("%10x"), "{:10x}");
    assert_eq!(render("%+10s"), "{:>+10}");
    assert_eq!(render("%#10s"), "{:>#10}");
    assert_eq!(source("%-5d %10s %-10.2x"), "%-5d %10s %-10.2x");
    let left = Placeholder {
        flag: Some("-".to_string()),
        width: Some("4".to_string()),
        precision: None,
        conversion: Conversion::Decimal,
    };
    assert!(left.is_left_justified());
    let plain = Placeholder { flag: None, width: None, precision: None, conversion: Conversion::Text };
    assert!(!plain.is_left_justified());
    let signed = Placeholder {
        flag: Some("+".to_string()),
        width: None,
        precision: None,
        conversion: Conversion::Decimal,
    };
    assert!(!signed.is_left_justified());
}
