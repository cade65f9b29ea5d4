use twine::colours::Code;
use twine::colours::Colour;
use twine::colours::Colours;
use twine::colours::Type;

#[test]
fn the_default_type_is_primary() {
    assert_eq!(Type::default(), Type::Primary);
    assert_ne!(Type::default(), Type::Secondary);
}

#[test]
fn a_colour_table_holds_its_colours() {
    let red = Colour {
        colour_name: "red".to_string(),
        category: "hue".to_string(),
        colour_type: Type::Primary,
        code: Code { rgba: vec![255, 0, 0, 1], hex: "#F00".to_string() },
    };
    let table = Colours { colour: vec![red] };
    assert_eq!(table, Colours {
        colour: vec![Colour {
            colour_name: "red".to_string(),
            category: "hue".to_string(),
            colour_type: Type::Primary,
            code: Code { rgba: vec![255, 0, 0, 1], hex: "#F00".to_string() },
        }],
    });
    assert_eq!(table.colour.len(), 1);
    assert_eq!(table.colour[0].code.rgba, vec![255, 0, 0, 1]);
    assert_eq!(table.colour[0].colour_type, Type::default());
}
