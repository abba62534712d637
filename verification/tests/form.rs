//! The comparison screen.
use hem_service::double::Double;
use hem_service::form::{
    default_choice, description_of, parse_opt, read_upgrade, signed_class, weather_field,
    NamedItem, Upgrade,
};

fn double(x: f64) -> Double {
    Double { bits: x.to_bits() }
}

fn field(raw: &str, label: &str) -> Result<Option<Double>, String> {
    let trimmed = raw.trim();
    parse_opt(trimmed, trimmed.parse::<f64>().ok().map(double), label)
}

fn items() -> Vec<NamedItem> {
    ["a", "b", "a"]
        .iter()
        .enumerate()
        .map(|(i, id)| NamedItem {
            id: id.to_string(),
            name: format!("name {i}"),
            description: format!("description {i}"),
        })
        .collect()
}

#[test]
fn fields_are_blank_or_numbers_or_malformed() {
    assert_eq!(field("", "U-value"), Ok(None));
    assert_eq!(field("  ", "U-value"), Ok(None));
    assert_eq!(field(" 0.8 ", "U-value"), Ok(Some(double(0.8))));
    assert_eq!(field("x", "U-value"), Err("U-value must be a number".to_string()));
}

#[test]
fn forms_with_a_value_are_upgrades() {
    let upgrade = read_upgrade(field("0.8", "U-value"), field("", "g-value"), field("", "f"));
    let expected =
        Upgrade { u_value: Some(double(0.8)), g_value: None, frame_area_fraction: None };
    assert_eq!(upgrade, Ok(expected));
    let upgrade = read_upgrade(field("", "u"), field("0.5", "g"), field("0.1", "f"));
    let expected = Upgrade {
        u_value: None,
        g_value: Some(double(0.5)),
        frame_area_fraction: Some(double(0.1)),
    };
    assert_eq!(upgrade, Ok(expected));
}

#[test]
fn blank_forms_are_asked_for_a_value() {
    assert_eq!(
        read_upgrade(field("", "u"), field("", "g"), field("", "f")),
        Err("Enter at least one upgraded glazing value to compare against the as-built windows."
            .to_string())
    );
}

#[test]
fn every_malformed_field_is_named() {
    let bad = |u: &str, g: &str, f: &str| {
        read_upgrade(field(u, "U-value"), field(g, "g-value"), field(f, "frame fraction"))
            .unwrap_err()
    };
    assert_eq!(bad("x", "0.5", ""), "U-value must be a number");
    assert_eq!(bad("1", "0.5", "?"), "frame fraction must be a number");
    assert_eq!(bad("x", "", "?"), "U-value must be a number; frame fraction must be a number");
    assert_eq!(
        bad("x", "y", "z"),
        "U-value must be a number; g-value must be a number; frame fraction must be a number"
    );
}

#[test]
fn the_first_item_is_the_default_choice() {
    assert_eq!(default_choice("", &items()), Some("a".to_string()));
    assert_eq!(default_choice("b", &items()), None);
    assert_eq!(default_choice("", &vec![]), None);
}

#[test]
fn the_description_is_that_of_the_chosen_item() {
    assert_eq!(description_of(&items(), "a"), "description 0");
    assert_eq!(description_of(&items(), "b"), "description 1");
    assert_eq!(description_of(&items(), "c"), "");
}

#[test]
fn no_weather_is_asked_for_where_none_is_chosen() {
    assert_eq!(weather_field(""), None);
    assert_eq!(weather_field("london_cibse"), Some("london_cibse".to_string()));
}

#[test]
fn savings_are_shown_by_their_sign() {
    assert_eq!(signed_class(double(0.5)), "pos");
    assert_eq!(signed_class(double(-0.5)), "neg");
    assert_eq!(signed_class(double(0.0)), "");
    assert_eq!(signed_class(double(-0.0)), "");
    assert_eq!(signed_class(double(f64::NAN)), "");
}
