//! The child fold: how the values of a node's children are merged into the
//! members of its object, and what holds of the result.

use vstd::prelude::*;
use crate::json::Json;
use crate::object::{position, get, put, unique_keys, lemma_position, lemma_put};

verus! {

/// How many of the given children have the tag and a value.
pub open spec fn times_seen(kids: Seq<(Seq<char>, Option<Json>)>, tag: Seq<char>) -> nat
    decreases kids.len(),
{
    if kids.len() == 0 {
        0
    } else {
        times_seen(kids.drop_last(), tag) + if kids.last().0 == tag && kids.last().1.is_some() {
            1nat
        } else {
            0nat
        }
    }
}

/// The values of the given children that have the tag and a value, in order.
pub open spec fn values_seen(kids: Seq<(Seq<char>, Option<Json>)>, tag: Seq<char>) -> Seq<Json>
    decreases kids.len(),
{
    if kids.len() == 0 {
        Seq::empty()
    } else if kids.last().0 == tag && kids.last().1.is_some() {
        values_seen(kids.drop_last(), tag).push(kids.last().1.unwrap())
    } else {
        values_seen(kids.drop_last(), tag)
    }
}

/// What is stored under a tag when one more child with that tag comes,
/// where `seen` earlier children had it and `current` is stored so far. The
/// first child's value is stored as it is; the second makes an array of the
/// stored value and its own; every later one is appended to the array.
pub open spec fn merged(current: Option<Json>, value: Json, seen: nat) -> Json {
    if seen == 0 {
        value
    } else if seen == 1 {
        Json::Array(seq![current.unwrap(), value])
    } else {
        Json::Array(current.unwrap()->Array_0.push(value))
    }
}

/// The members after one more child is folded in, where `seen` earlier
/// children had its tag and a value.
pub open spec fn fold_one(
    members: Seq<(Seq<char>, Json)>,
    tag: Seq<char>,
    value: Json,
    seen: nat,
) -> Seq<(Seq<char>, Json)> {
    put(members, tag, merged(get(members, tag), value, seen))
}

/// The members after the children are folded into `base` in order. Each
/// child is given by its tag and its value; one without a value is skipped.
pub open spec fn fold_children(
    base: Seq<(Seq<char>, Json)>,
    kids: Seq<(Seq<char>, Option<Json>)>,
) -> Seq<(Seq<char>, Json)>
    decreases kids.len(),
{
    if kids.len() == 0 {
        base
    } else {
        let before = fold_children(base, kids.drop_last());
        match kids.last().1 {
            Some(value) => fold_one(
                before,
                kids.last().0,
                value,
                times_seen(kids.drop_last(), kids.last().0),
            ),
            None => before,
        }
    }
}

/// Grouping: after the fold, a tag that no child with a value had is as it
/// was in `base`; a tag that one such child had holds that child's value; a
/// tag that several had holds the array of their values, in their order.
/// The keys stay unique, and they are the keys of `base` and the tags of the
/// children with a value.
pub proof fn law_fold_groups(
    base: Seq<(Seq<char>, Json)>,
    kids: Seq<(Seq<char>, Option<Json>)>,
    tag: Seq<char>,
)
    requires
        unique_keys(base),
    ensures
        unique_keys(fold_children(base, kids)),
        values_seen(kids, tag).len() == times_seen(kids, tag),
        position(fold_children(base, kids), tag).is_some() <==> position(base, tag).is_some()
            || times_seen(kids, tag) >= 1,
        times_seen(kids, tag) == 0 ==> position(fold_children(base, kids), tag) == position(base, tag)
            && get(fold_children(base, kids), tag) == get(base, tag),
        times_seen(kids, tag) == 1 ==> get(fold_children(base, kids), tag) == Some(
            values_seen(kids, tag)[0],
        ),
        times_seen(kids, tag) >= 2 ==> get(fold_children(base, kids), tag) == Some(
            Json::Array(values_seen(kids, tag)),
        ),
    decreases kids.len(),
{
    if kids.len() > 0 {
        let earlier = kids.drop_last();
        let before = fold_children(base, earlier);
        let last_tag = kids.last().0;
        law_fold_groups(base, earlier, tag);
        if let Some(value) = kids.last().1 {
            let stored = merged(get(before, last_tag), value, times_seen(earlier, last_tag));
            lemma_put(before, last_tag, stored);
            if last_tag == tag {
                let seen = times_seen(earlier, tag);
                if seen == 1 {
                    assert(values_seen(kids, tag) =~= seq![values_seen(earlier, tag)[0], value]);
                }
            }
        }
    }
}

/// A child without a value contributes nothing: the fold is the same
/// without that child.
pub proof fn law_fold_skips(
    base: Seq<(Seq<char>, Json)>,
    kids: Seq<(Seq<char>, Option<Json>)>,
    i: int,
)
    requires
        0 <= i < kids.len(),
        kids[i].1.is_none(),
    ensures
        fold_children(base, kids) == fold_children(base, kids.remove(i)),
        forall|tag: Seq<char>| #[trigger]
            times_seen(kids, tag) == times_seen(kids.remove(i), tag),
    decreases kids.len(),
{
    let without = kids.remove(i);
    if i == kids.len() - 1 {
        assert(without =~= kids.drop_last());
    } else {
        law_fold_skips(base, kids.drop_last(), i);
        assert(without.drop_last() =~= kids.drop_last().remove(i));
        assert(without.last() == kids.last());
        assert forall|tag: Seq<char>| #[trigger]
            times_seen(kids, tag) == times_seen(without, tag) by {
            assert(times_seen(kids.drop_last(), tag) == times_seen(
                kids.drop_last().remove(i),
                tag,
            ));
        }
    }
}

/// Places are kept: the members that are there after the first `n` children
/// keep their places and their keys as the other children follow. With `n`
/// zero these are the members of `base`.
pub proof fn law_fold_keeps_places(
    base: Seq<(Seq<char>, Json)>,
    kids: Seq<(Seq<char>, Option<Json>)>,
    n: int,
    tag: Seq<char>,
)
    requires
        unique_keys(base),
        0 <= n <= kids.len(),
    ensures
        fold_children(base, kids.take(n)).len() <= fold_children(base, kids).len(),
        forall|i: int|
            0 <= i < fold_children(base, kids.take(n)).len() ==> (#[trigger] fold_children(base, kids)[i]).0
                == fold_children(base, kids.take(n))[i].0,
        position(fold_children(base, kids.take(n)), tag).is_some() ==> position(
            fold_children(base, kids),
            tag,
        ) == position(fold_children(base, kids.take(n)), tag),
    decreases kids.len() - n,
{
    if n == kids.len() {
        assert(kids.take(n) =~= kids);
    } else {
        let now = kids.take(n);
        let next = kids.take(n + 1);
        assert(next.drop_last() =~= now);
        law_fold_groups(base, now, tag);
        if let Some(value) = next.last().1 {
            let stored = merged(
                get(fold_children(base, now), next.last().0),
                value,
                times_seen(now, next.last().0),
            );
            lemma_put(fold_children(base, now), next.last().0, stored);
            lemma_position(fold_children(base, now), next.last().0);
        }
        law_fold_keeps_places(base, kids, n + 1, tag);
    }
}

/// First-occurrence order: of two children with values and different tags,
/// the later one the first with its tag, the earlier one's tag comes first
/// among the members. Left out is only the case that the later tag is a key
/// of `base` and the earlier tag is not a key of `base` before it: a key of
/// `base` keeps its place.
pub proof fn law_fold_order(
    base: Seq<(Seq<char>, Json)>,
    kids: Seq<(Seq<char>, Option<Json>)>,
    i: int,
    j: int,
)
    requires
        unique_keys(base),
        0 <= i < j < kids.len(),
        kids[i].1.is_some(),
        kids[j].1.is_some(),
        kids[i].0 != kids[j].0,
        times_seen(kids.take(j), kids[j].0) == 0,
        position(base, kids[j].0) matches Some(q) ==> (position(base, kids[i].0) matches Some(p)
            && p < q),
    ensures
        position(fold_children(base, kids), kids[i].0).is_some(),
        position(fold_children(base, kids), kids[j].0).is_some(),
        position(fold_children(base, kids), kids[i].0).unwrap() < position(
            fold_children(base, kids),
            kids[j].0,
        ).unwrap(),
{
    if position(base, kids[j].0).is_some() {
        // both tags are keys of `base`, and stay where they are
        assert(kids.take(0) =~= Seq::empty());
        law_fold_keeps_places(base, kids, 0, kids[i].0);
        law_fold_keeps_places(base, kids, 0, kids[j].0);
    } else {
        let earlier = kids.take(j);
        let upto = kids.take(j + 1);
        let before = fold_children(base, earlier);
        assert(upto.drop_last() =~= earlier);
        assert(upto.last() == kids[j]);
        // the earlier child's tag has its member before the later child comes
        lemma_seen_at(earlier, i);
        law_fold_groups(base, earlier, kids[i].0);
        law_fold_groups(base, earlier, kids[j].0);
        lemma_position(before, kids[i].0);
        // the later child's tag is new, so its member is put at the end
        let stored = merged(get(before, kids[j].0), kids[j].1.unwrap(), 0);
        lemma_put(before, kids[j].0, stored);
        assert(fold_children(base, upto) == put(before, kids[j].0, stored));
        law_fold_keeps_places(base, kids, j + 1, kids[i].0);
        law_fold_keeps_places(base, kids, j + 1, kids[j].0);
    }
}

/// A child with a value counts among those seen with its tag.
proof fn lemma_seen_at(kids: Seq<(Seq<char>, Option<Json>)>, i: int)
    requires
        0 <= i < kids.len(),
        kids[i].1.is_some(),
    ensures
        times_seen(kids, kids[i].0) >= 1,
    decreases kids.len(),
{
    if i < kids.len() - 1 {
        lemma_seen_at(kids.drop_last(), i);
    }
}

} // verus!
