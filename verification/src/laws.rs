//! What holds of conversion for every node.

use vstd::prelude::*;
use crate::convert::{at_key, text_key, attribute_members, child_values, json_of, document_of};
use crate::element::{Node, XMLNodeType};
use crate::fold::{
    fold_children, merged, times_seen, values_seen, law_fold_groups, law_fold_keeps_places,
    law_fold_order, law_fold_skips,
};
use crate::json::{Json, well_formed};
use crate::object::{
    position, get, put, unique_keys, lemma_position, lemma_position_unique, lemma_put,
};
use crate::scalar::{typed, contents};

verus! {

/// No two attributes have the same name.
pub open spec fn unique_names(attributes: Seq<(Seq<char>, Seq<char>)>) -> bool {
    forall|i: int, j: int|
        0 <= i < j < attributes.len() ==> (#[trigger] attributes[i]).0 != (
        #[trigger] attributes[j]).0
}

/// One member for each attribute, in the order of the attributes: the
/// attribute's key with the scalar that its value stands for.
pub open spec fn attribute_entries(
    attributes: Seq<(Seq<char>, Seq<char>)>,
    numbers: Map<Seq<char>, u64>,
) -> Seq<(Seq<char>, Json)> {
    Seq::new(
        attributes.len(),
        |i: int| (at_key(attributes[i].0), typed(attributes[i].1, numbers)),
    )
}

/// The node without its child at position `i`.
pub open spec fn without_child(node: Node, i: int) -> Node {
    Node { children: node.children.remove(i), ..node }
}

/// Different names have different attribute keys.
pub proof fn lemma_at_key_injective(a: Seq<char>, b: Seq<char>)
    requires
        at_key(a) == at_key(b),
    ensures
        a == b,
{
    assert(at_key(a).subrange(1, at_key(a).len() as int) =~= a);
    assert(at_key(b).subrange(1, at_key(b).len() as int) =~= b);
}

/// The members that attributes give have unique keys, and every key begins
/// with `@`.
pub proof fn lemma_attribute_keys(
    attributes: Seq<(Seq<char>, Seq<char>)>,
    numbers: Map<Seq<char>, u64>,
)
    ensures
        unique_keys(attribute_members(attributes, numbers)),
        forall|i: int|
            0 <= i < attribute_members(attributes, numbers).len() ==> (#[trigger] attribute_members(
                attributes,
                numbers,
            )[i]).0.len() > 0 && attribute_members(attributes, numbers)[i].0[0] == '@',
    decreases attributes.len(),
{
    if attributes.len() > 0 {
        let before = attribute_members(attributes.drop_last(), numbers);
        let key = at_key(attributes.last().0);
        lemma_attribute_keys(attributes.drop_last(), numbers);
        lemma_put(before, key, typed(attributes.last().1, numbers));
        lemma_position(before, key);
    }
}

/// A key that does not begin with `@` is no key of the members that
/// attributes give.
pub proof fn lemma_not_an_attribute_key(
    attributes: Seq<(Seq<char>, Seq<char>)>,
    numbers: Map<Seq<char>, u64>,
    key: Seq<char>,
)
    requires
        key.len() == 0 || key[0] != '@',
    ensures
        position(attribute_members(attributes, numbers), key).is_none(),
{
    lemma_attribute_keys(attributes, numbers);
    lemma_position(attribute_members(attributes, numbers), key);
}

/// An element without children, text and attributes converts to `null`.
pub proof fn law_empty_is_null(node: Node, numbers: Map<Seq<char>, u64>)
    requires
        node.children.len() == 0,
        !node.has_text(),
        node.attributes.len() == 0,
    ensures
        json_of(node, numbers) == Some(Json::Null),
        document_of(node, numbers) == seq![(node.name, Json::Null)],
{
}

/// Attributes with unique names give one member each, in their order: the
/// name behind an `@` as the key, and the scalar of the value.
pub proof fn law_attributes_in_order(
    attributes: Seq<(Seq<char>, Seq<char>)>,
    numbers: Map<Seq<char>, u64>,
)
    requires
        unique_names(attributes),
    ensures
        attribute_members(attributes, numbers) == attribute_entries(attributes, numbers),
    decreases attributes.len(),
{
    if attributes.len() == 0 {
        assert(attribute_members(attributes, numbers) =~= attribute_entries(attributes, numbers));
    } else {
        let earlier = attributes.drop_last();
        let before = attribute_entries(earlier, numbers);
        let key = at_key(attributes.last().0);
        law_attributes_in_order(earlier, numbers);
        lemma_position(before, key);
        if let Some(p) = position(before, key) {
            lemma_at_key_injective(earlier[p].0, attributes.last().0);
            assert(attributes[p].0 == attributes[attributes.len() - 1].0);
        }
        assert(before.push((key, typed(attributes.last().1, numbers))) =~= attribute_entries(
            attributes,
            numbers,
        ));
    }
}

/// An element with attributes and neither text nor children converts to an
/// object with one member for each attribute, in the order of the
/// attributes.
pub proof fn law_attributes_only(node: Node, numbers: Map<Seq<char>, u64>)
    requires
        node.children.len() == 0,
        !node.has_text(),
        node.attributes.len() > 0,
        unique_names(node.attributes),
    ensures
        json_of(node, numbers) == Some(
            Json::Object(attribute_entries(node.attributes, numbers)),
        ),
{
    law_attributes_in_order(node.attributes, numbers);
}

/// An element with attributes and text, and no children, converts to an
/// object with one member for each attribute, followed by the scalar of its
/// text under the key `#text`.
pub proof fn law_text_and_attributes(node: Node, numbers: Map<Seq<char>, u64>)
    requires
        node.children.len() == 0,
        node.has_text(),
        node.attributes.len() > 0,
        unique_names(node.attributes),
    ensures
        json_of(node, numbers) == Some(
            Json::Object(
                attribute_entries(node.attributes, numbers).push(
                    (text_key(), typed(contents(node), numbers)),
                ),
            ),
        ),
{
    law_attributes_in_order(node.attributes, numbers);
    lemma_not_an_attribute_key(node.attributes, numbers, text_key());
}

/// The attributes of a parent stand before its children: each attribute has
/// its member at the attribute's own place, with the scalar of its value,
/// unless a child with a value is named like the attribute's key.
pub proof fn law_parent_keeps_attributes(node: Node, numbers: Map<Seq<char>, u64>, i: int)
    requires
        node.shape() == XMLNodeType::Parent,
        unique_names(node.attributes),
        0 <= i < node.attributes.len(),
        forall|k: int|
            0 <= k < node.children.len() && json_of(#[trigger] node.children[k], numbers).is_some()
                ==> node.children[k].name != at_key(node.attributes[i].0),
    ensures
        json_of(node, numbers) matches Some(Json::Object(members)) && i < members.len()
            && members[i] == (at_key(node.attributes[i].0), typed(node.attributes[i].1, numbers)),
{
    let base = attribute_members(node.attributes, numbers);
    let kids = child_values(node, numbers);
    let key = at_key(node.attributes[i].0);
    let members = fold_children(base, kids);
    law_attributes_in_order(node.attributes, numbers);
    lemma_attribute_keys(node.attributes, numbers);
    assert(base[i].0 == key);
    lemma_position_unique(base, key, i);
    lemma_not_seen(kids, key);
    law_fold_groups(base, kids, key);
    assert(kids.take(0) =~= Seq::empty());
    law_fold_keeps_places(base, kids, 0, key);
}

/// The value of a node is never an array: arrays come only from repeated
/// children, as members of their parent's object.
pub proof fn law_never_an_array(node: Node, numbers: Map<Seq<char>, u64>)
    ensures
        !(json_of(node, numbers) matches Some(Json::Array(_))),
{
}

/// A child that has both text and children has no value, and its parent
/// converts as if the child were not there: the parent's object is the fold
/// of the other children.
pub proof fn law_semi_structured_child(node: Node, numbers: Map<Seq<char>, u64>, i: int)
    requires
        node.shape() == XMLNodeType::Parent,
        0 <= i < node.children.len(),
        node.children[i].shape() == XMLNodeType::SemiStructured,
    ensures
        json_of(node.children[i], numbers).is_none(),
        child_values(without_child(node, i), numbers) == child_values(node, numbers).remove(i),
        json_of(node, numbers) == Some(
            Json::Object(
                fold_children(
                    attribute_members(node.attributes, numbers),
                    child_values(without_child(node, i), numbers),
                ),
            ),
        ),
{
    assert(child_values(without_child(node, i), numbers) =~= child_values(node, numbers).remove(i));
    law_fold_skips(attribute_members(node.attributes, numbers), child_values(node, numbers), i);
}

/// Repeated children: in the object of a parent, a tag that one child with
/// a value has holds that child's value, and a tag that several have holds
/// the array of their values in document order.
pub proof fn law_repeated_children(node: Node, numbers: Map<Seq<char>, u64>, tag: Seq<char>)
    requires
        node.shape() == XMLNodeType::Parent,
    ensures
        json_of(node, numbers) matches Some(Json::Object(members)) && {
            let values = values_seen(child_values(node, numbers), tag);
            &&& unique_keys(members)
            &&& values.len() == 1 ==> get(members, tag) == Some(values[0])
            &&& values.len() >= 2 ==> get(members, tag) == Some(Json::Array(values))
        },
{
    lemma_attribute_keys(node.attributes, numbers);
    law_fold_groups(attribute_members(node.attributes, numbers), child_values(node, numbers), tag);
}

/// First-occurrence order: in the object of a parent, the tags of children
/// come in the order in which each tag first occurs among the children that
/// have a value. It is stated of two children with values and different
/// tags, the later one the first with its tag. Left out is only the case
/// that the later tag is the key of an attribute and the earlier tag is not
/// the key of an attribute before it: the key of an attribute keeps its
/// place.
pub proof fn law_children_order(node: Node, numbers: Map<Seq<char>, u64>, i: int, j: int)
    requires
        node.shape() == XMLNodeType::Parent,
        0 <= i < j < node.children.len(),
        json_of(node.children[i], numbers).is_some(),
        json_of(node.children[j], numbers).is_some(),
        node.children[i].name != node.children[j].name,
        forall|k: int|
            0 <= k < j && json_of(#[trigger] node.children[k], numbers).is_some()
                ==> node.children[k].name != node.children[j].name,
        position(attribute_members(node.attributes, numbers), node.children[j].name) matches Some(
            q,
        ) ==> (position(
            attribute_members(node.attributes, numbers),
            node.children[i].name,
        ) matches Some(p) && p < q),
    ensures
        json_of(node, numbers) matches Some(Json::Object(members)) && {
            &&& position(members, node.children[i].name).is_some()
            &&& position(members, node.children[j].name).is_some()
            &&& position(members, node.children[i].name).unwrap() < position(
                members,
                node.children[j].name,
            ).unwrap()
        },
{
    let base = attribute_members(node.attributes, numbers);
    let kids = child_values(node, numbers);
    lemma_attribute_keys(node.attributes, numbers);
    lemma_not_seen(kids.take(j), kids[j].0);
    law_fold_order(base, kids, i, j);
}

/// A tag that no child with a value has was seen no times.
proof fn lemma_not_seen(kids: Seq<(Seq<char>, Option<Json>)>, tag: Seq<char>)
    requires
        forall|k: int| 0 <= k < kids.len() && (#[trigger] kids[k]).1.is_some() ==> kids[k].0 != tag,
    ensures
        times_seen(kids, tag) == 0,
    decreases kids.len(),
{
    if kids.len() > 0 {
        assert(kids.last() == kids[kids.len() - 1]);
        assert forall|k: int| 0 <= k < kids.drop_last().len() && (#[trigger] kids.drop_last()[k]).1.is_some() implies kids.drop_last()[k].0 != tag by {
            assert(kids.drop_last()[k] == kids[k]);
        }
        lemma_not_seen(kids.drop_last(), tag);
    }
}

/// Folding well-formed values into well-formed members gives well-formed
/// members.
proof fn lemma_fold_well_formed(
    base: Seq<(Seq<char>, Json)>,
    kids: Seq<(Seq<char>, Option<Json>)>,
)
    requires
        well_formed(Json::Object(base)),
        forall|k: int|
            0 <= k < kids.len() && (#[trigger] kids[k]).1.is_some() ==> well_formed(
                kids[k].1.unwrap(),
            ),
    ensures
        well_formed(Json::Object(fold_children(base, kids))),
    decreases kids.len(),
{
    if kids.len() > 0 {
        let earlier = kids.drop_last();
        let before = fold_children(base, earlier);
        let tag = kids.last().0;
        assert forall|k: int|
            0 <= k < earlier.len() && (#[trigger] earlier[k]).1.is_some() implies well_formed(
            earlier[k].1.unwrap(),
        ) by {
            assert(earlier[k] == kids[k]);
        }
        lemma_fold_well_formed(base, earlier);
        assert(kids.last() == kids[kids.len() - 1]);
        if let Some(value) = kids.last().1 {
            let seen = times_seen(earlier, tag);
            let stored = merged(get(before, tag), value, seen);
            law_fold_groups(base, earlier, tag);
            lemma_position(before, tag);
            if seen == 1 {
                let first = get(before, tag).unwrap();
                let pair = seq![first, value];
                assert(well_formed(before[position(before, tag).unwrap()].1));
                assert forall|k: int| 0 <= k < pair.len() implies well_formed(
                    #[trigger] pair[k],
                ) by {}
            } else if seen >= 2 {
                let items = get(before, tag).unwrap()->Array_0;
                assert(well_formed(before[position(before, tag).unwrap()].1));
                assert forall|k: int| 0 <= k < items.push(value).len() implies well_formed(
                    #[trigger] items.push(value)[k],
                ) by {
                    if k < items.len() {
                        assert(items.push(value)[k] == items[k]);
                    }
                }
            }
            assert(well_formed(stored));
            lemma_put_well_formed(before, tag, stored);
        }
    }
}

/// Storing a well-formed value in well-formed members gives well-formed
/// members.
proof fn lemma_put_well_formed(members: Seq<(Seq<char>, Json)>, key: Seq<char>, value: Json)
    requires
        well_formed(Json::Object(members)),
        well_formed(value),
    ensures
        well_formed(Json::Object(put(members, key, value))),
{
    let after = put(members, key, value);
    lemma_put(members, key, value);
    lemma_position(members, key);
    assert forall|k: int| 0 <= k < after.len() implies well_formed((#[trigger] after[k]).1) by {
        if k < members.len() && position(members, key) != Some(k) {
            assert(after[k] == members[k]);
        }
    }
}

/// The members that attributes give are well formed.
proof fn lemma_attributes_well_formed(
    attributes: Seq<(Seq<char>, Seq<char>)>,
    numbers: Map<Seq<char>, u64>,
)
    ensures
        well_formed(Json::Object(attribute_members(attributes, numbers))),
    decreases attributes.len(),
{
    if attributes.len() > 0 {
        lemma_attributes_well_formed(attributes.drop_last(), numbers);
        lemma_put_well_formed(
            attribute_members(attributes.drop_last(), numbers),
            at_key(attributes.last().0),
            typed(attributes.last().1, numbers),
        );
    }
}

/// Whatever a node converts to is well formed: its numbers are finite, and
/// no object in it has a key twice.
pub proof fn law_well_formed(node: Node, numbers: Map<Seq<char>, u64>)
    ensures
        json_of(node, numbers) matches Some(json) ==> well_formed(json),
        well_formed(Json::Object(document_of(node, numbers))),
    decreases node,
{
    lemma_attributes_well_formed(node.attributes, numbers);
    match node.shape() {
        XMLNodeType::TextAndAttributes => {
            lemma_put_well_formed(
                attribute_members(node.attributes, numbers),
                text_key(),
                typed(contents(node), numbers),
            );
        },
        XMLNodeType::Parent => {
            let kids = child_values(node, numbers);
            assert forall|k: int|
                0 <= k < kids.len() && (#[trigger] kids[k]).1.is_some() implies well_formed(
                kids[k].1.unwrap(),
            ) by {
                law_well_formed(node.children[k], numbers);
            }
            lemma_fold_well_formed(attribute_members(node.attributes, numbers), kids);
        },
        _ => {},
    }
    let document = document_of(node, numbers);
    assert forall|k: int| 0 <= k < document.len() implies well_formed(
        (#[trigger] document[k]).1,
    ) by {}
}

} // verus!
