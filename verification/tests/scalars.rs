//! Scalar inference, the number table and the shape of a node.

use node2object::{
    infer_scalar, is_finite, parse_text, parse_text_contents, scan_xml_node, text_contents,
    Element, Numbers, Value, XMLNodeType,
};

fn reading(text: &str) -> Option<u64> {
    match text.parse::<f64>() {
        Ok(v) => Some(v.to_bits()),
        Err(_) => None,
    }
}

fn table(texts: &[&str]) -> Numbers {
    let mut numbers = Numbers::new();
    for text in texts {
        if let Some(bits) = reading(text) {
            numbers.record(text.to_string(), bits);
        }
    }
    numbers
}

fn element(name: &str) -> Element {
    Element {
        name: name.to_string(),
        text: None,
        cdata: None,
        attributes: Vec::new(),
        children: Vec::new(),
    }
}

#[test]
fn number_text() {
    let numbers = table(&["9000"]);
    assert_eq!(parse_text("9000", &numbers), Value::Number(9000.0f64.to_bits()));
    assert_eq!(
        parse_text("9000", &numbers),
        Value::Number(0x40C1_9400_0000_0000)
    );
}

#[test]
fn boolean_text() {
    let numbers = table(&["true", "false"]);
    assert_eq!(parse_text("true", &numbers), Value::Bool(true));
    assert_eq!(parse_text("false", &numbers), Value::Bool(false));
}

#[test]
fn string_text() {
    let numbers = table(&["Kolya"]);
    assert_eq!(
        parse_text("Kolya", &numbers),
        Value::String("Kolya".to_string())
    );
}

#[test]
fn empty_text_is_the_empty_string() {
    let numbers = table(&[""]);
    assert_eq!(parse_text("", &numbers), Value::String(String::new()));
}

#[test]
fn booleans_are_case_sensitive() {
    let numbers = Numbers::new();
    for text in ["True", "FALSE", "tru", "truee", " true", "yes", "1b"] {
        assert_eq!(
            parse_text(text, &numbers),
            Value::String(text.to_string())
        );
    }
}

#[test]
fn number_goes_before_boolean() {
    // A reading, where there is one, wins over the spelling of a boolean.
    assert_eq!(
        infer_scalar("true", Some(1.0f64.to_bits())),
        Value::Number(1.0f64.to_bits())
    );
    assert_eq!(infer_scalar("true", None), Value::Bool(true));
}

#[test]
fn reading_that_is_not_finite_falls_through() {
    assert_eq!(
        infer_scalar("1e999", reading("1e999")),
        Value::String("1e999".to_string())
    );
    assert_eq!(
        infer_scalar("inf", Some(f64::INFINITY.to_bits())),
        Value::String("inf".to_string())
    );
    assert_eq!(
        infer_scalar("-inf", Some(f64::NEG_INFINITY.to_bits())),
        Value::String("-inf".to_string())
    );
    assert_eq!(
        infer_scalar("nan", Some(f64::NAN.to_bits())),
        Value::String("nan".to_string())
    );
    assert_eq!(
        infer_scalar("true", Some(f64::NAN.to_bits())),
        Value::Bool(true)
    );
}

#[test]
fn text_without_a_reading_is_no_number() {
    let numbers = Numbers::new();
    assert_eq!(
        parse_text("9000", &numbers),
        Value::String("9000".to_string())
    );
}

#[test]
fn finite_bit_patterns() {
    for v in [
        0.0f64,
        -0.0,
        1.0,
        -1.0,
        9000.0,
        173.5,
        f64::MAX,
        f64::MIN,
        f64::MIN_POSITIVE,
        f64::EPSILON,
        5e-324,
    ] {
        assert!(is_finite(v.to_bits()));
    }
    for v in [f64::INFINITY, f64::NEG_INFINITY, f64::NAN, -f64::NAN] {
        assert!(!is_finite(v.to_bits()));
    }
    assert!(is_finite(0));
    assert!(is_finite(0x7FEF_FFFF_FFFF_FFFF));
    assert!(!is_finite(0x7FF0_0000_0000_0000));
    assert!(!is_finite(0x7FF0_0000_0000_0001));
    assert!(!is_finite(0xFFF0_0000_0000_0000));
    assert!(!is_finite(u64::MAX));
}

#[test]
fn table_of_readings() {
    let mut numbers = Numbers::new();
    assert_eq!(numbers.reading("1"), None);
    numbers.record("1".to_string(), 1.0f64.to_bits());
    numbers.record("2".to_string(), 2.0f64.to_bits());
    assert_eq!(numbers.reading("1"), Some(1.0f64.to_bits()));
    assert_eq!(numbers.reading("2"), Some(2.0f64.to_bits()));
    assert_eq!(numbers.reading("3"), None);
    numbers.record("1".to_string(), 10.0f64.to_bits());
    assert_eq!(numbers.reading("1"), Some(10.0f64.to_bits()));
}

#[test]
fn contents_are_text_then_cdata() {
    let mut e = element("e");
    assert_eq!(text_contents(&e), "");
    e.text = Some("ab".to_string());
    assert_eq!(text_contents(&e), "ab");
    e.cdata = Some("cd".to_string());
    assert_eq!(text_contents(&e), "abcd");
    e.text = None;
    assert_eq!(text_contents(&e), "cd");
}

#[test]
fn contents_are_typed_as_a_whole() {
    let mut e = element("e");
    e.text = Some("tr".to_string());
    e.cdata = Some("ue".to_string());
    assert_eq!(parse_text_contents(&e, &Numbers::new()), Value::Bool(true));
    e.text = Some("1".to_string());
    e.cdata = Some("5".to_string());
    assert_eq!(
        parse_text_contents(&e, &table(&["15"])),
        Value::Number(15.0f64.to_bits())
    );
}

#[test]
fn shapes() {
    let text = Some("t".to_string());
    let attributes = vec![("k".to_string(), "v".to_string())];
    let children = vec![element("c")];

    let mut e = element("e");
    assert_eq!(scan_xml_node(&e), XMLNodeType::Empty);
    e.attributes = attributes.clone();
    assert_eq!(scan_xml_node(&e), XMLNodeType::Attributes);
    e.text = text.clone();
    assert_eq!(scan_xml_node(&e), XMLNodeType::TextAndAttributes);
    e.attributes = Vec::new();
    assert_eq!(scan_xml_node(&e), XMLNodeType::Text);
    e.text = None;
    e.cdata = text.clone();
    assert_eq!(scan_xml_node(&e), XMLNodeType::Text);
    e.attributes = attributes.clone();
    assert_eq!(scan_xml_node(&e), XMLNodeType::TextAndAttributes);

    let mut p = element("p");
    p.children = children;
    assert_eq!(scan_xml_node(&p), XMLNodeType::Parent);
    p.attributes = attributes;
    assert_eq!(scan_xml_node(&p), XMLNodeType::Parent);
    p.cdata = text.clone();
    assert_eq!(scan_xml_node(&p), XMLNodeType::SemiStructured);
    p.cdata = None;
    p.text = Some(String::new());
    assert_eq!(scan_xml_node(&p), XMLNodeType::SemiStructured);
}
