//! The texts whose reading as a number conversion asks for.

use vstd::prelude::*;
use crate::convert::{attribute_members, child_values, json_of, document_of};
use crate::element::{Element, Node, XMLNodeType, scan_xml_node};
use crate::numbers::reading_of;
use crate::scalar::{contents, text_contents};

verus! {

/// The texts that a sequence of strings holds.
pub open spec fn strings(v: Seq<String>) -> Seq<Seq<char>> {
    Seq::new(v.len(), |i: int| v[i]@)
}

/// The values of the attributes, in order.
pub open spec fn attribute_values(attributes: Seq<(Seq<char>, Seq<char>)>) -> Seq<Seq<char>> {
    Seq::new(attributes.len(), |i: int| attributes[i].1)
}

/// For each child of a node, the texts that its conversion types.
pub open spec fn child_texts(node: Node) -> Seq<Seq<Seq<char>>>
    decreases node, 0nat,
{
    Seq::new(
        node.children.len(),
        |i: int|
            if 0 <= i < node.children.len() {
                texts_of(node.children[i])
            } else {
                arbitrary()
            },
    )
}

/// The texts that the conversion of a node types as scalars, in the order
/// in which it meets them: the values of attributes, the text content, and
/// the same of the children of a parent. A node with both text and children
/// is not converted and gives none.
pub open spec fn texts_of(node: Node) -> Seq<Seq<char>>
    decreases node, 1nat,
{
    match node.shape() {
        XMLNodeType::Empty => Seq::empty(),
        XMLNodeType::Text => seq![contents(node)],
        XMLNodeType::Attributes => attribute_values(node.attributes),
        XMLNodeType::TextAndAttributes => attribute_values(node.attributes).push(contents(node)),
        XMLNodeType::Parent => attribute_values(node.attributes) + child_texts(node).flatten(),
        XMLNodeType::SemiStructured => Seq::empty(),
    }
}

/// Two tables of readings agree on every one of the texts.
pub open spec fn agree_on(
    a: Map<Seq<char>, u64>,
    b: Map<Seq<char>, u64>,
    texts: Seq<Seq<char>>,
) -> bool {
    forall|i: int| 0 <= i < texts.len() ==> reading_of(a, #[trigger] texts[i]) == reading_of(b, texts[i])
}

/// Appends the values of the attributes of an element.
fn collect_attribute_values(e: &Element, texts: &mut Vec<String>)
    ensures
        strings(final(texts)@) == strings(old(texts)@) + attribute_values(e@.attributes),
{
    let ghost before = strings(texts@);
    let mut i: usize = 0;
    while i < e.attributes.len()
        invariant
            0 <= i <= e.attributes.len(),
            strings(texts@) == before + attribute_values(e@.attributes).take(i as int),
        decreases e.attributes.len() - i,
    {
        let ghost so_far = strings(texts@);
        texts.push(e.attributes[i].1.clone());
        assert(strings(texts@) =~= so_far.push(e.attributes@[i as int].1@));
        assert(strings(texts@) =~= before + attribute_values(e@.attributes).take(i + 1));
        i += 1;
    }
    assert(attribute_values(e@.attributes).take(e.attributes.len() as int) =~= attribute_values(
        e@.attributes,
    ));
}

/// Appends the texts that the conversion of an element types.
fn collect_texts(e: &Element, texts: &mut Vec<String>)
    ensures
        strings(final(texts)@) == strings(old(texts)@) + texts_of(e@),
    decreases e,
{
    let ghost before = strings(texts@);
    match scan_xml_node(e) {
        XMLNodeType::Empty => {
            assert(before =~= before + texts_of(e@));
        },
        XMLNodeType::Text => {
            texts.push(text_contents(e));
            assert(strings(texts@) =~= before + texts_of(e@));
        },
        XMLNodeType::Attributes => {
            collect_attribute_values(e, texts);
        },
        XMLNodeType::TextAndAttributes => {
            collect_attribute_values(e, texts);
            let ghost values = strings(texts@);
            texts.push(text_contents(e));
            assert(strings(texts@) =~= values.push(contents(e@)));
            assert(strings(texts@) =~= before + texts_of(e@));
        },
        XMLNodeType::Parent => {
            collect_attribute_values(e, texts);
            let ghost values = attribute_values(e@.attributes);
            let ghost kids = child_texts(e@);
            let mut i: usize = 0;
            assert(kids.take(0).flatten() =~= Seq::<Seq<char>>::empty());
            assert(strings(texts@) =~= before + values + kids.take(0).flatten());
            while i < e.children.len()
                invariant
                    0 <= i <= e.children.len(),
                    values == attribute_values(e@.attributes),
                    kids == child_texts(e@),
                    strings(texts@) == before + values + kids.take(i as int).flatten(),
                decreases e.children.len() - i,
            {
                collect_texts(&e.children[i], texts);
                proof {
                    assert(kids.take(i + 1) =~= kids.take(i as int).push(kids[i as int]));
                    kids.take(i as int).lemma_flatten_push(kids[i as int]);
                    assert(strings(texts@) =~= before + values + kids.take(i + 1).flatten());
                }
                i += 1;
            }
            assert(kids.take(e.children.len() as int) =~= kids);
            assert(strings(texts@) =~= before + texts_of(e@));
        },
        XMLNodeType::SemiStructured => {
            assert(before =~= before + texts_of(e@));
        },
    }
}

/// Lists the texts that the conversion of an element types as scalars, in
/// the order in which it meets them. These are the texts whose readings as
/// numbers the table handed to the conversion has to hold.
pub fn scalar_texts(e: &Element) -> (r: Vec<String>)
    ensures
        strings(r@) == texts_of(e@),
{
    let mut r: Vec<String> = Vec::new();
    collect_texts(e, &mut r);
    assert(strings(r@) =~= texts_of(e@));
    r
}

/// Each text of each part is among the texts of the whole.
proof fn lemma_flatten_holds(parts: Seq<Seq<Seq<char>>>, i: int, j: int)
    requires
        0 <= i < parts.len(),
        0 <= j < parts[i].len(),
    ensures
        parts.flatten().contains(parts[i][j]),
    decreases parts.len(),
{
    let earlier = parts.drop_last();
    assert(parts =~= earlier.push(parts.last()));
    earlier.lemma_flatten_push(parts.last());
    let whole = parts.flatten();
    if i == parts.len() - 1 {
        assert(whole[earlier.flatten().len() + j] == parts[i][j]);
    } else {
        lemma_flatten_holds(earlier, i, j);
        let k = choose|k: int| 0 <= k < earlier.flatten().len() && earlier.flatten()[k] == parts[i][j];
        assert(whole[k] == parts[i][j]);
    }
}

/// Attributes give the same members under two tables that agree on their
/// values.
proof fn lemma_attributes_agree(
    attributes: Seq<(Seq<char>, Seq<char>)>,
    a: Map<Seq<char>, u64>,
    b: Map<Seq<char>, u64>,
)
    requires
        agree_on(a, b, attribute_values(attributes)),
    ensures
        attribute_members(attributes, a) == attribute_members(attributes, b),
    decreases attributes.len(),
{
    if attributes.len() > 0 {
        let earlier = attributes.drop_last();
        assert forall|i: int| 0 <= i < attribute_values(earlier).len() implies reading_of(
            a,
            #[trigger] attribute_values(earlier)[i],
        ) == reading_of(b, attribute_values(earlier)[i]) by {
            assert(attribute_values(earlier)[i] == attribute_values(attributes)[i]);
        }
        lemma_attributes_agree(earlier, a, b);
        assert(attributes.last().1 == attribute_values(attributes)[attributes.len() - 1]);
    }
}

/// The listed texts suffice: under two tables of readings that agree on
/// the texts of a node, the node converts to the same value.
pub proof fn law_texts_suffice(node: Node, a: Map<Seq<char>, u64>, b: Map<Seq<char>, u64>)
    requires
        agree_on(a, b, texts_of(node)),
    ensures
        json_of(node, a) == json_of(node, b),
        document_of(node, a) == document_of(node, b),
    decreases node,
{
    let texts = texts_of(node);
    let values = attribute_values(node.attributes);
    match node.shape() {
        XMLNodeType::Empty => {},
        XMLNodeType::Text => {
            assert(texts[0] == contents(node));
        },
        XMLNodeType::Attributes => {
            lemma_attributes_agree(node.attributes, a, b);
        },
        XMLNodeType::TextAndAttributes => {
            assert forall|i: int| 0 <= i < values.len() implies reading_of(
                a,
                #[trigger] values[i],
            ) == reading_of(b, values[i]) by {
                assert(texts[i] == values[i]);
            }
            lemma_attributes_agree(node.attributes, a, b);
            assert(texts[values.len() as int] == contents(node));
        },
        XMLNodeType::Parent => {
            assert forall|i: int| 0 <= i < values.len() implies reading_of(
                a,
                #[trigger] values[i],
            ) == reading_of(b, values[i]) by {
                assert(texts[i] == values[i]);
            }
            lemma_attributes_agree(node.attributes, a, b);
            let parts = child_texts(node);
            assert forall|i: int| 0 <= i < node.children.len() implies json_of(
                node.children[i],
                a,
            ) == json_of(node.children[i], b) by {
                let part = texts_of(node.children[i]);
                assert forall|j: int| 0 <= j < part.len() implies reading_of(
                    a,
                    #[trigger] part[j],
                ) == reading_of(b, part[j]) by {
                    assert(parts[i][j] == part[j]);
                    lemma_flatten_holds(parts, i, j);
                    let k = choose|k: int|
                        0 <= k < parts.flatten().len() && parts.flatten()[k] == part[j];
                    assert(texts[values.len() + k] == part[j]);
                }
                law_texts_suffice(node.children[i], a, b);
            }
            assert(child_values(node, a) =~= child_values(node, b));
        },
        XMLNodeType::SemiStructured => {},
    }
}

} // verus!
