//! Conversion of trees written out by hand, compared member by member, so
//! that the order of the members counts.

use node2object::{convert_node_aux, node2object, scalar_texts, Element, Numbers, Value};

fn element(name: &str) -> Element {
    Element {
        name: name.to_string(),
        text: None,
        cdata: None,
        attributes: Vec::new(),
        children: Vec::new(),
    }
}

fn leaf(name: &str, text: &str) -> Element {
    let mut e = element(name);
    e.text = Some(text.to_string());
    e
}

fn with_attributes(mut e: Element, attributes: &[(&str, &str)]) -> Element {
    for (k, v) in attributes {
        e.attributes.push((k.to_string(), v.to_string()));
    }
    e
}

fn parent(name: &str, children: Vec<Element>) -> Element {
    let mut e = element(name);
    e.children = children;
    e
}

fn readings_for(e: &Element) -> Numbers {
    let mut numbers = Numbers::new();
    for text in scalar_texts(e) {
        if let Ok(v) = text.parse::<f64>() {
            numbers.record(text, v.to_bits());
        }
    }
    numbers
}

fn convert(e: &Element) -> Option<Value> {
    convert_node_aux(e, &readings_for(e))
}

fn string(s: &str) -> Value {
    Value::String(s.to_string())
}

fn number(v: f64) -> Value {
    Value::Number(v.to_bits())
}

fn object(members: Vec<(&str, Value)>) -> Value {
    Value::Object(
        members
            .into_iter()
            .map(|(k, v)| (k.to_string(), v))
            .collect(),
    )
}

#[test]
fn empty_element_is_null() {
    assert_eq!(convert(&element("e")), Some(Value::Null));
    assert_eq!(
        node2object(&element("e"), &Numbers::new()),
        vec![("e".to_string(), Value::Null)]
    );
}

#[test]
fn root_is_wrapped_under_its_tag() {
    let e = leaf("height", "173.5");
    assert_eq!(
        node2object(&e, &readings_for(&e)),
        vec![("height".to_string(), number(173.5))]
    );
}

#[test]
fn attributes_keep_their_order() {
    let e = with_attributes(
        element("e"),
        &[("z", "9000"), ("a", "true"), ("m", "Kolya"), ("b", "")],
    );
    assert_eq!(
        convert(&e),
        Some(object(vec![
            ("@z", number(9000.0)),
            ("@a", Value::Bool(true)),
            ("@m", string("Kolya")),
            ("@b", string("")),
        ]))
    );
}

#[test]
fn text_comes_after_attributes() {
    let mut e = with_attributes(element("e"), &[("name", "value"), ("n", "1")]);
    e.text = Some("text".to_string());
    assert_eq!(
        convert(&e),
        Some(object(vec![
            ("@name", string("value")),
            ("@n", number(1.0)),
            ("#text", string("text")),
        ]))
    );
}

#[test]
fn attribute_named_like_the_text_key() {
    let mut e = with_attributes(element("e"), &[("#text", "a")]);
    e.cdata = Some("b".to_string());
    assert_eq!(
        convert(&e),
        Some(object(vec![("@#text", string("a")), ("#text", string("b"))]))
    );
}

#[test]
fn first_occurrence_decides_the_order() {
    let e = parent(
        "e",
        vec![leaf("a", "p"), leaf("b", "q"), leaf("a", "r")],
    );
    assert_eq!(
        convert(&e),
        Some(object(vec![
            ("a", Value::Array(vec![string("p"), string("r")])),
            ("b", string("q")),
        ]))
    );
    let e = parent(
        "e",
        vec![
            leaf("b", "1"),
            leaf("a", "2"),
            leaf("c", "3"),
            leaf("a", "4"),
            leaf("b", "5"),
            leaf("a", "6"),
        ],
    );
    assert_eq!(
        convert(&e),
        Some(object(vec![
            ("b", Value::Array(vec![number(1.0), number(5.0)])),
            (
                "a",
                Value::Array(vec![number(2.0), number(4.0), number(6.0)])
            ),
            ("c", number(3.0)),
        ]))
    );
}

#[test]
fn repeated_tag_appends_and_does_not_wrap_again() {
    let e = parent(
        "e",
        vec![leaf("a", "x"), leaf("a", "y"), leaf("a", "z"), leaf("a", "w")],
    );
    assert_eq!(
        convert(&e),
        Some(object(vec![(
            "a",
            Value::Array(vec![string("x"), string("y"), string("z"), string("w")])
        )]))
    );
}

#[test]
fn attributes_of_a_parent_come_first() {
    let c = leaf("c", "scotch");
    let b = with_attributes(parent("b", vec![c]), &[("frenchfry", "milkshake")]);
    let a = with_attributes(parent("a", vec![b]), &[("pizza", "hotdog")]);
    assert_eq!(
        node2object(&a, &readings_for(&a)),
        vec![(
            "a".to_string(),
            object(vec![
                ("@pizza", string("hotdog")),
                (
                    "b",
                    object(vec![("@frenchfry", string("milkshake")), ("c", string("scotch"))])
                ),
            ])
        )]
    );
}

#[test]
fn child_with_text_and_children_is_skipped() {
    let mut mixed = parent("m", vec![leaf("i", "y")]);
    mixed.text = Some("text".to_string());
    assert_eq!(convert(&mixed), None);

    let with = parent(
        "e",
        vec![leaf("a", "x"), mixed, leaf("b", "q"), leaf("a", "z")],
    );
    let without = parent("e", vec![leaf("a", "x"), leaf("b", "q"), leaf("a", "z")]);
    assert_eq!(convert(&with), convert(&without));
    assert_eq!(
        convert(&with),
        Some(object(vec![
            ("a", Value::Array(vec![string("x"), string("z")])),
            ("b", string("q")),
        ]))
    );
}

#[test]
fn skipped_child_does_not_count_as_seen() {
    let mut mixed = parent("a", vec![leaf("i", "y")]);
    mixed.cdata = Some("text".to_string());
    let e = parent("e", vec![mixed, leaf("a", "x")]);
    assert_eq!(convert(&e), Some(object(vec![("a", string("x"))])));
}

#[test]
fn only_skipped_children_give_the_attributes() {
    let mut mixed = parent("m", vec![element("i")]);
    mixed.text = Some("text".to_string());
    let e = with_attributes(parent("e", vec![mixed]), &[("k", "v")]);
    assert_eq!(convert(&e), Some(object(vec![("@k", string("v"))])));
    let mut mixed = parent("m", vec![element("i")]);
    mixed.text = Some("text".to_string());
    assert_eq!(convert(&parent("e", vec![mixed])), Some(object(vec![])));
}

#[test]
fn root_with_text_and_children_is_null() {
    let mut e = parent("e", vec![leaf("a", "x")]);
    e.text = Some("text".to_string());
    assert_eq!(
        node2object(&e, &readings_for(&e)),
        vec![("e".to_string(), Value::Null)]
    );
}

#[test]
fn empty_children_are_null() {
    let e = parent("e", vec![element("a"), element("b"), element("a")]);
    assert_eq!(
        convert(&e),
        Some(object(vec![
            ("a", Value::Array(vec![Value::Null, Value::Null])),
            ("b", Value::Null),
        ]))
    );
}

#[test]
fn nested_repeats() {
    let entry = |name: &str, height: &str| {
        parent("entry", vec![leaf("name", name), leaf("height", height)])
    };
    let e = parent(
        "population",
        vec![entry("Alex", "173.5"), entry("Mel", "180.4")],
    );
    assert_eq!(
        node2object(&e, &readings_for(&e)),
        vec![(
            "population".to_string(),
            object(vec![(
                "entry",
                Value::Array(vec![
                    object(vec![("name", string("Alex")), ("height", number(173.5))]),
                    object(vec![("name", string("Mel")), ("height", number(180.4))]),
                ])
            )])
        )]
    );
}

#[test]
fn later_attribute_of_the_same_name_replaces() {
    let e = with_attributes(element("e"), &[("k", "1"), ("j", "2"), ("k", "3")]);
    assert_eq!(
        convert(&e),
        Some(object(vec![("@k", number(3.0)), ("@j", number(2.0))]))
    );
}

#[test]
fn child_named_like_an_attribute_key_replaces_it() {
    let e = with_attributes(
        parent("e", vec![leaf("@k", "x"), leaf("c", "y"), leaf("@k", "z")]),
        &[("k", "v"), ("j", "w")],
    );
    assert_eq!(
        convert(&e),
        Some(object(vec![
            ("@k", Value::Array(vec![string("x"), string("z")])),
            ("@j", string("w")),
            ("c", string("y")),
        ]))
    );
}

#[test]
fn texts_are_listed_in_the_order_of_conversion() {
    let mut mixed = parent("m", vec![leaf("i", "hidden")]);
    mixed.text = Some("dropped".to_string());
    let mut both = with_attributes(element("t"), &[("u", "4")]);
    both.text = Some("5".to_string());
    both.cdata = Some("6".to_string());
    let e = with_attributes(
        parent(
            "e",
            vec![
                leaf("a", "3"),
                element("empty"),
                mixed,
                both,
                with_attributes(parent("p", vec![leaf("q", "8")]), &[("r", "7")]),
            ],
        ),
        &[("x", "1"), ("y", "2")],
    );
    assert_eq!(
        scalar_texts(&e),
        vec!["1", "2", "3", "4", "56", "7", "8"]
    );
    assert_eq!(scalar_texts(&element("e")), Vec::<String>::new());
    assert_eq!(scalar_texts(&leaf("e", "t")), vec!["t"]);
}

#[test]
fn readings_of_other_texts_do_not_matter() {
    let e = with_attributes(
        parent("e", vec![leaf("a", "1"), leaf("b", "x")]),
        &[("k", "2")],
    );
    let narrow = readings_for(&e);
    let mut wide = readings_for(&e);
    wide.record("3".to_string(), 3.0f64.to_bits());
    wide.record("y".to_string(), 4.0f64.to_bits());
    assert_eq!(node2object(&e, &narrow), node2object(&e, &wide));
}

#[test]
fn clone_keeps_the_tree() {
    let mut both = with_attributes(element("t"), &[("u", "4"), ("v", "w")]);
    both.text = Some("5".to_string());
    both.cdata = Some("6".to_string());
    let e = with_attributes(
        parent(
            "e",
            vec![leaf("a", "3"), element("empty"), both, leaf("a", "true")],
        ),
        &[("x", "1")],
    );
    let copy = e.clone();
    assert_eq!(copy, e);
    assert_eq!(copy.children[2].attributes, e.children[2].attributes);

    let value = convert(&e).unwrap();
    assert_eq!(value.clone(), value);
    assert_eq!(
        value.clone(),
        object(vec![
            ("@x", number(1.0)),
            ("a", Value::Array(vec![number(3.0), Value::Bool(true)])),
            ("empty", Value::Null),
            (
                "t",
                object(vec![
                    ("@u", number(4.0)),
                    ("@v", string("w")),
                    ("#text", number(56.0)),
                ])
            ),
        ])
    );
}
