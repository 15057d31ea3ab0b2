//! The tree converter: from an element to the JSON value that stands for it.

use vstd::prelude::*;
use vstd::hash_map::StringHashMap;
use crate::element::{Element, Node, XMLNodeType, scan_xml_node};
use crate::json::{Json, Value, members_json, well_formed, lemma_object_json};
use crate::laws::{law_well_formed, lemma_attribute_keys};
use crate::numbers::Numbers;
use crate::fold::{fold_children, times_seen, law_fold_groups};
use crate::object::{ObjectBuilder, put};
use crate::scalar::{typed, contents, parse_text, parse_text_contents};

verus! {

/// The key under which an attribute is stored: its name behind an `@`.
pub open spec fn at_key(name: Seq<char>) -> Seq<char> {
    seq!['@'] + name
}

/// The key under which the text of an element with attributes is stored.
pub open spec fn text_key() -> Seq<char> {
    seq!['#', 't', 'e', 'x', 't']
}

/// The members that the attributes of a node give: each attribute in turn is
/// stored under its key, with the scalar that its value stands for.
pub open spec fn attribute_members(
    attributes: Seq<(Seq<char>, Seq<char>)>,
    numbers: Map<Seq<char>, u64>,
) -> Seq<(Seq<char>, Json)>
    decreases attributes.len(),
{
    if attributes.len() == 0 {
        Seq::empty()
    } else {
        put(
            attribute_members(attributes.drop_last(), numbers),
            at_key(attributes.last().0),
            typed(attributes.last().1, numbers),
        )
    }
}

/// The children of a node, each as its tag and the value it converts to.
pub open spec fn child_values(node: Node, numbers: Map<Seq<char>, u64>) -> Seq<
    (Seq<char>, Option<Json>),
>
    decreases node, 0nat,
{
    Seq::new(
        node.children.len(),
        |i: int|
            if 0 <= i < node.children.len() {
                (node.children[i].name, json_of(node.children[i], numbers))
            } else {
                arbitrary()
            },
    )
}

/// The JSON value that a node converts to under a table of readings, by the
/// shape of the node. A node with both text and children has none.
pub open spec fn json_of(node: Node, numbers: Map<Seq<char>, u64>) -> Option<Json>
    decreases node, 1nat,
{
    match node.shape() {
        XMLNodeType::Empty => Some(Json::Null),
        XMLNodeType::Text => Some(typed(contents(node), numbers)),
        XMLNodeType::Attributes => Some(
            Json::Object(attribute_members(node.attributes, numbers)),
        ),
        XMLNodeType::TextAndAttributes => Some(
            Json::Object(
                put(
                    attribute_members(node.attributes, numbers),
                    text_key(),
                    typed(contents(node), numbers),
                ),
            ),
        ),
        XMLNodeType::Parent => Some(
            Json::Object(
                fold_children(attribute_members(node.attributes, numbers), child_values(node, numbers)),
            ),
        ),
        XMLNodeType::SemiStructured => None,
    }
}

/// The document that a root node converts to: one member, under the root's
/// tag, with the root's value, or `null` where it has none.
pub open spec fn document_of(node: Node, numbers: Map<Seq<char>, u64>) -> Seq<
    (Seq<char>, Json),
> {
    seq![
        (
            node.name,
            match json_of(node, numbers) {
                Some(json) => json,
                None => Json::Null,
            },
        ),
    ]
}

/// Stores the attributes of an element in an empty object.
fn put_attributes(object: &mut ObjectBuilder, e: &Element, numbers: &Numbers)
    requires
        old(object).wf(),
        old(object)@ == Seq::<(Seq<char>, Json)>::empty(),
    ensures
        final(object).wf(),
        final(object)@ == attribute_members(e@.attributes, numbers@),
{
    let mut i: usize = 0;
    while i < e.attributes.len()
        invariant
            0 <= i <= e.attributes.len(),
            object.wf(),
            object@ == attribute_members(e@.attributes.take(i as int), numbers@),
        decreases e.attributes.len() - i,
    {
        let name = &e.attributes[i].0;
        let value = &e.attributes[i].1;
        let mut key = String::from_str("@");
        key.append(name.as_str());
        let scalar = parse_text(value.as_str(), numbers);
        proof {
            reveal_strlit("@");
            assert(key@ =~= at_key(name@));
            let taken = e@.attributes.take(i + 1);
            assert(taken.drop_last() =~= e@.attributes.take(i as int));
            assert(taken.last() == (name@, value@));
        }
        object.put(key, scalar);
        i += 1;
    }
    proof {
        assert(e@.attributes.take(e.attributes.len() as int) =~= e@.attributes);
    }
}

/// Converts an element to the JSON value that stands for it, by its shape:
/// `null` for an empty element, a scalar for text, an object for attributes,
/// for text with attributes and for children. An element that has both text
/// and children has no value.
pub fn convert_node_aux(e: &Element, numbers: &Numbers) -> (r: Option<Value>)
    ensures
        match r {
            Some(value) => json_of(e@, numbers@) == Some(value@),
            None => json_of(e@, numbers@).is_none(),
        },
        r.is_none() <==> e@.shape() == XMLNodeType::SemiStructured,
        r matches Some(value) ==> well_formed(value@),
    decreases e,
{
    proof {
        law_well_formed(e@, numbers@);
    }
    match scan_xml_node(e) {
        XMLNodeType::Empty => Some(Value::Null),
        XMLNodeType::Text => Some(parse_text_contents(e, numbers)),
        XMLNodeType::Attributes => {
            let mut object = ObjectBuilder::new();
            put_attributes(&mut object, e, numbers);
            let members = object.into_members();
            proof {
                lemma_object_json(members);
            }
            Some(Value::Object(members))
        },
        XMLNodeType::TextAndAttributes => {
            let mut object = ObjectBuilder::new();
            put_attributes(&mut object, e, numbers);
            let text = parse_text_contents(e, numbers);
            proof {
                reveal_strlit("#text");
                assert("#text"@ =~= text_key());
            }
            object.put(String::from_str("#text"), text);
            let members = object.into_members();
            proof {
                lemma_object_json(members);
            }
            Some(Value::Object(members))
        },
        XMLNodeType::Parent => {
            let mut object = ObjectBuilder::new();
            put_attributes(&mut object, e, numbers);
            let ghost base = attribute_members(e@.attributes, numbers@);
            let ghost kids = child_values(e@, numbers@);
            let mut seen: StringHashMap<bool> = StringHashMap::new();
            let mut i: usize = 0;
            while i < e.children.len()
                invariant
                    0 <= i <= e.children.len(),
                    base == attribute_members(e@.attributes, numbers@),
                    kids == child_values(e@, numbers@),
                    object.wf(),
                    object@ == fold_children(base, kids.take(i as int)),
                    forall|tag: Seq<char>| #[trigger]
                        seen@.contains_key(tag) <==> times_seen(kids.take(i as int), tag) >= 1,
                    forall|tag: Seq<char>| #[trigger]
                        seen@.contains_key(tag) ==> (seen@[tag] <==> times_seen(
                            kids.take(i as int),
                            tag,
                        ) >= 2),
                decreases e.children.len() - i,
            {
                let child = &e.children[i];
                let converted = convert_node_aux(child, numbers);
                proof {
                    let taken = kids.take(i + 1);
                    assert(taken.drop_last() =~= kids.take(i as int));
                    assert(taken.last() == (child.name@, json_of(child@, numbers@)));
                    lemma_attribute_keys(e@.attributes, numbers@);
                    law_fold_groups(base, kids.take(i as int), child.name@);
                }
                if let Some(value) = converted {
                    match seen.get(child.name.as_str()) {
                        None => {
                            object.put(child.name.clone(), value);
                            seen.insert(child.name.clone(), false);
                        },
                        Some(promoted) => {
                            if *promoted {
                                object.append(child.name.as_str(), value);
                            } else {
                                object.promote(child.name.as_str(), value);
                                seen.insert(child.name.clone(), true);
                            }
                        },
                    }
                }
                i += 1;
            }
            proof {
                assert(kids.take(e.children.len() as int) =~= kids);
            }
            let members = object.into_members();
            proof {
                lemma_object_json(members);
            }
            Some(Value::Object(members))
        },
        XMLNodeType::SemiStructured => None,
    }
}

/// Converts the root element of a document: the result has one member,
/// under the root's tag, with the root's value, or `null` where the root has
/// both text and children.
pub fn node2object(e: &Element, numbers: &Numbers) -> (r: Vec<(String, Value)>)
    ensures
        members_json(r@) == document_of(e@, numbers@),
        well_formed(Json::Object(members_json(r@))),
{
    proof {
        law_well_formed(e@, numbers@);
    }
    let value = match convert_node_aux(e, numbers) {
        Some(value) => value,
        None => Value::Null,
    };
    let mut r: Vec<(String, Value)> = Vec::new();
    r.push((e.name.clone(), value));
    assert(members_json(r@) =~= document_of(e@, numbers@));
    r
}

} // verus!
