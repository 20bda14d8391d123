//! What holds of every fold.
use crate::flamegraph::{
    embedded, item_leaves, items_weight, leaves, lemma_leaves_total, member_leaves,
    members_weight, total_weight,
};
use crate::json::JsonTree;
use crate::order::{entry_before, path_before};
use crate::path::{
    array_marker, discriminant, element_path, find_group_key, find_key, group_segment, has_key,
    lemma_find_group_key, missing,
};
use crate::stacks::{folds_to, has_path, lemma_fold_unique, tallies, total, weight_at};
use vstd::prelude::*;

verus! {

/// The leaves without those at `path`.
pub open spec fn without(leaves: Seq<(Seq<char>, nat)>, path: Seq<char>) -> Seq<(Seq<char>, nat)>
    decreases leaves.len(),
{
    if leaves.len() == 0 {
        Seq::empty()
    } else if leaves.last().0 == path {
        without(leaves.drop_last(), path)
    } else {
        without(leaves.drop_last(), path).push(leaves.last())
    }
}

/// The leaves weigh what those at `path` and those elsewhere weigh together.
proof fn lemma_without_total(leaves: Seq<(Seq<char>, nat)>, path: Seq<char>)
    ensures
        total(leaves) == weight_at(leaves, path) + total(without(leaves, path)),
    decreases leaves.len(),
{
    if leaves.len() > 0 {
        lemma_without_total(leaves.drop_last(), path);
        if leaves.last().0 != path {
            let rest = without(leaves.drop_last(), path);
            assert(rest.push(leaves.last()).drop_last() =~= rest);
        }
    }
}

/// Taking the leaves at `path` away changes nothing at another path.
proof fn lemma_without_weight(leaves: Seq<(Seq<char>, nat)>, path: Seq<char>, other: Seq<char>)
    requires
        other != path,
    ensures
        weight_at(without(leaves, path), other) == weight_at(leaves, other),
        has_path(leaves, other) ==> has_path(without(leaves, path), other),
    decreases leaves.len(),
{
    if leaves.len() > 0 {
        let front = leaves.drop_last();
        lemma_without_weight(front, path, other);
        let rest = without(front, path);
        if leaves.last().0 != path {
            assert(rest.push(leaves.last()).drop_last() =~= rest);
        }
        if has_path(leaves, other) {
            let k = choose|k: int| 0 <= k < leaves.len() && (#[trigger] leaves[k]).0 == other;
            if k < leaves.len() - 1 {
                assert(front[k].0 == other);
                let m = choose|m: int| 0 <= m < rest.len() && (#[trigger] rest[m]).0 == other;
                assert(without(leaves, path)[m].0 == other);
            } else {
                assert(without(leaves, path)[rest.len() as int].0 == other);
            }
        }
    }
}

/// What is left without the leaves at `path` are leaves at other paths.
proof fn lemma_without_members(leaves: Seq<(Seq<char>, nat)>, path: Seq<char>, k: int)
    requires
        0 <= k < without(leaves, path).len(),
    ensures
        without(leaves, path)[k].0 != path,
        leaves.contains(without(leaves, path)[k]),
    decreases leaves.len(),
{
    if leaves.len() > 0 {
        let front = leaves.drop_last();
        let rest = without(front, path);
        if k < rest.len() {
            lemma_without_members(front, path, k);
            let m = choose|m: int| 0 <= m < front.len() && front[m] == rest[k];
            assert(leaves[m] == rest[k]);
        } else {
            assert(leaves[leaves.len() - 1] == without(leaves, path)[k]);
        }
    }
}

/// Entries that tally the leaves weigh what the leaves weigh.
pub proof fn lemma_tally_total(leaves: Seq<(Seq<char>, nat)>, entries: Seq<(Seq<char>, nat)>)
    requires
        tallies(leaves, entries),
    ensures
        total(entries) == total(leaves),
    decreases entries.len(),
{
    if entries.len() == 0 {
        if leaves.len() > 0 {
            assert(has_path(entries, leaves[0].0));
        }
    } else {
        let last = entries.last();
        let rest = entries.drop_last();
        let others = without(leaves, last.0);
        assert forall|i: int| 0 <= i < rest.len() implies has_path(others, (#[trigger] rest[i]).0)
            && rest[i].1 == weight_at(others, rest[i].0) by {
            assert(rest[i] == entries[i]);
            assert(entries[i].0 != entries[entries.len() - 1].0);
            lemma_without_weight(leaves, last.0, rest[i].0);
        }
        assert forall|k: int| 0 <= k < others.len() implies has_path(
            rest,
            (#[trigger] others[k]).0,
        ) by {
            lemma_without_members(leaves, last.0, k);
            let m = choose|m: int| 0 <= m < leaves.len() && leaves[m] == others[k];
            assert(has_path(entries, leaves[m].0));
            let i = choose|i: int| 0 <= i < entries.len() && (#[trigger] entries[i]).0 == others[k].0;
            assert(rest[i].0 == others[k].0);
        }
        assert forall|i: int, j: int| 0 <= i < j < rest.len() implies (#[trigger] rest[i]).0 != (
        #[trigger] rest[j]).0 by {
            assert(rest[i] == entries[i] && rest[j] == entries[j]);
        }
        lemma_tally_total(others, rest);
        lemma_without_total(leaves, last.0);
    }
}

/// Conservation: the entries that a value folds to weigh what the leaves of
/// the value weigh, whatever the grouping.
pub proof fn lemma_fold_conserves_weight(
    t: JsonTree,
    keys: Seq<Seq<char>>,
    path: Seq<Seq<char>>,
    entries: Seq<(Seq<char>, nat)>,
)
    requires
        folds_to(leaves(t, keys, path), entries),
    ensures
        total(entries) == total_weight(t),
{
    lemma_tally_total(leaves(t, keys, path), entries);
    lemma_leaves_total(t, keys, path);
}

/// The values without children that `t` holds, in the order of the walk,
/// strings taken as they are.
pub open spec fn scalars(t: JsonTree) -> Seq<JsonTree>
    decreases t,
{
    match t {
        JsonTree::Array(items) => item_scalars(items, 0),
        JsonTree::Object(members) => member_scalars(members, 0),
        _ => seq![t],
    }
}

/// The values without children that `items[from..]` hold.
pub open spec fn item_scalars(items: Seq<JsonTree>, from: nat) -> Seq<JsonTree>
    decreases items, items.len() - from,
{
    if from < items.len() {
        scalars(items[from as int]) + item_scalars(items, from + 1)
    } else {
        Seq::empty()
    }
}

/// The values without children that the values of `members[from..]` hold.
pub open spec fn member_scalars(members: Seq<(Seq<char>, JsonTree)>, from: nat) -> Seq<JsonTree>
    decreases members, members.len() - from,
{
    if from < members.len() {
        scalars(members[from as int].1) + member_scalars(members, from + 1)
    } else {
        Seq::empty()
    }
}

/// The weights of the values, added up.
pub open spec fn weights(values: Seq<JsonTree>) -> nat
    decreases values.len(),
{
    if values.len() == 0 {
        0
    } else {
        weights(values.drop_last()) + values.last().weight()
    }
}

/// Whether none of the values is a string that embeds a document.
pub open spec fn none_embeds(values: Seq<JsonTree>) -> bool {
    forall|i: int|
        0 <= i < values.len() ==> ((#[trigger] values[i]) matches JsonTree::String(s) ==> embedded(
            s,
        ) is None)
}

proof fn lemma_weights_concat(a: Seq<JsonTree>, b: Seq<JsonTree>)
    ensures
        weights(a + b) == weights(a) + weights(b),
    decreases b.len(),
{
    if b.len() == 0 {
        assert(a + b =~= a);
    } else {
        assert((a + b).drop_last() =~= a + b.drop_last());
        lemma_weights_concat(a, b.drop_last());
    }
}

proof fn lemma_none_embeds_concat(a: Seq<JsonTree>, b: Seq<JsonTree>)
    requires
        none_embeds(a + b),
    ensures
        none_embeds(a),
        none_embeds(b),
{
    assert forall|i: int| 0 <= i < a.len() implies ((#[trigger] a[i]) matches JsonTree::String(s)
        ==> embedded(s) is None) by {
        assert((a + b)[i] == a[i]);
    }
    assert forall|i: int| 0 <= i < b.len() implies ((#[trigger] b[i]) matches JsonTree::String(s)
        ==> embedded(s) is None) by {
        assert((a + b)[a.len() + i] == b[i]);
    }
}

/// A value none of whose strings embeds a document weighs what its values
/// without children weigh.
pub proof fn lemma_plain_weight(t: JsonTree)
    requires
        none_embeds(scalars(t)),
    ensures
        total_weight(t) == weights(scalars(t)),
    decreases t,
{
    match t {
        JsonTree::Array(items) => {
            lemma_plain_items(items, 0);
        },
        JsonTree::Object(members) => {
            lemma_plain_members(members, 0);
        },
        _ => {
            let one = seq![t];
            assert(one[0] == t);
            assert(one.drop_last() =~= Seq::<JsonTree>::empty());
            assert(weights(one.drop_last()) == 0);
        },
    }
}

proof fn lemma_plain_items(items: Seq<JsonTree>, from: nat)
    requires
        none_embeds(item_scalars(items, from)),
    ensures
        items_weight(items, from) == weights(item_scalars(items, from)),
    decreases items, items.len() - from,
{
    if from < items.len() {
        lemma_none_embeds_concat(scalars(items[from as int]), item_scalars(items, from + 1));
        lemma_weights_concat(scalars(items[from as int]), item_scalars(items, from + 1));
        lemma_plain_weight(items[from as int]);
        lemma_plain_items(items, from + 1);
    }
}

proof fn lemma_plain_members(members: Seq<(Seq<char>, JsonTree)>, from: nat)
    requires
        none_embeds(member_scalars(members, from)),
    ensures
        members_weight(members, from) == weights(member_scalars(members, from)),
    decreases members, members.len() - from,
{
    if from < members.len() {
        lemma_none_embeds_concat(scalars(members[from as int].1), member_scalars(members, from + 1));
        lemma_weights_concat(scalars(members[from as int].1), member_scalars(members, from + 1));
        lemma_plain_weight(members[from as int].1);
        lemma_plain_members(members, from + 1);
    }
}

/// Conservation, for a document none of whose strings embeds a document:
/// the entries that it folds to weigh what its numbers, strings, booleans
/// and nulls weigh, each taken by itself.
pub proof fn lemma_plain_fold_conserves_weight(
    t: JsonTree,
    keys: Seq<Seq<char>>,
    entries: Seq<(Seq<char>, nat)>,
)
    requires
        none_embeds(scalars(t)),
        folds_to(leaves(t, keys, Seq::empty()), entries),
    ensures
        total(entries) == weights(scalars(t)),
{
    lemma_fold_conserves_weight(t, keys, Seq::empty(), entries);
    lemma_plain_weight(t);
}

/// Transparency: a string that embeds a document has the leaves of that
/// document, at the path of the string, and none of its own.
pub proof fn lemma_embedded_transparent(
    s: Seq<char>,
    inner: JsonTree,
    keys: Seq<Seq<char>>,
    path: Seq<Seq<char>>,
)
    requires
        embedded(s) == Some(inner),
    ensures
        leaves(JsonTree::String(s), keys, path) == leaves(inner, keys, path),
        total_weight(JsonTree::String(s)) == total_weight(inner),
{
}

/// An empty array and an empty object have no leaves and no weight.
pub proof fn lemma_empty_containers(keys: Seq<Seq<char>>, path: Seq<Seq<char>>)
    ensures
        leaves(JsonTree::Array(Seq::empty()), keys, path) == Seq::<(Seq<char>, nat)>::empty(),
        leaves(JsonTree::Object(Seq::empty()), keys, path) == Seq::<(Seq<char>, nat)>::empty(),
        total_weight(JsonTree::Array(Seq::empty())) == 0,
        total_weight(JsonTree::Object(Seq::empty())) == 0,
{
    assert(item_leaves(Seq::empty(), 0, keys, path.push(array_marker())) == Seq::<
        (Seq<char>, nat),
    >::empty());
    assert(member_leaves(Seq::empty(), 0, keys, path) == Seq::<(Seq<char>, nat)>::empty());
    assert(items_weight(Seq::empty(), 0) == 0);
    assert(members_weight(Seq::empty(), 0) == 0);
}

/// A value that has nothing but empty containers folds to no entry.
pub proof fn lemma_no_leaves_no_entries(entries: Seq<(Seq<char>, nat)>)
    requires
        folds_to(Seq::empty(), entries),
    ensures
        entries == Seq::<(Seq<char>, nat)>::empty(),
{
    if entries.len() > 0 {
        assert(has_path(Seq::<(Seq<char>, nat)>::empty(), entries[0].0));
    }
    assert(entries =~= Seq::<(Seq<char>, nat)>::empty());
}

/// Determinism: a value and a grouping fold to one run of entries.
pub proof fn lemma_fold_deterministic(
    t: JsonTree,
    keys: Seq<Seq<char>>,
    a: Seq<(Seq<char>, nat)>,
    b: Seq<(Seq<char>, nat)>,
)
    requires
        folds_to(leaves(t, keys, Seq::empty()), a),
        folds_to(leaves(t, keys, Seq::empty()), b),
    ensures
        a == b,
{
    lemma_fold_unique(leaves(t, keys, Seq::empty()), a, b);
}

/// Ordering: of two entries of a fold the earlier is the heavier, or they
/// weigh the same and the path of the earlier comes first.
pub proof fn lemma_fold_ordered(
    found: Seq<(Seq<char>, nat)>,
    entries: Seq<(Seq<char>, nat)>,
    i: int,
    j: int,
)
    requires
        folds_to(found, entries),
        0 <= i < j < entries.len(),
    ensures
        entries[i].1 > entries[j].1 || (entries[i].1 == entries[j].1 && path_before(
            entries[i].0,
            entries[j].0,
        )),
        entries[i].0 != entries[j].0,
{
    assert(entry_before(entries[i], entries[j]));
}

/// Precedence: an object that has several of the grouping keys is grouped
/// by the first of them in the order of the keys, and by that one alone.
pub proof fn lemma_group_by_first_key(
    members: Seq<(Seq<char>, JsonTree)>,
    keys: Seq<Seq<char>>,
    path: Seq<Seq<char>>,
    k: int,
)
    requires
        0 <= k < keys.len(),
        has_key(members, keys[k]),
        forall|j: int| 0 <= j < k ==> !has_key(members, #[trigger] keys[j]),
    ensures
        find_group_key(members, keys, 0) == Some(k as nat),
        group_segment(JsonTree::Object(members), keys) == Some(
            keys[k] + seq!['='] + discriminant(
                members[find_key(members, keys[k], 0)->Some_0 as int].1,
            ),
        ),
        element_path(JsonTree::Object(members), keys, path).len() == path.len() + 1,
{
    lemma_find_group_key(members, keys, 0);
}

/// An object that has none of the grouping keys, and a value that is no
/// object, are not grouped.
pub proof fn lemma_not_grouped(item: JsonTree, keys: Seq<Seq<char>>, path: Seq<Seq<char>>)
    requires
        item matches JsonTree::Object(members) ==> forall|j: int|
            0 <= j < keys.len() ==> !has_key(members, #[trigger] keys[j]),
    ensures
        group_segment(item, keys) is None,
        element_path(item, keys, path) == path,
{
    if let JsonTree::Object(members) = item {
        lemma_find_group_key(members, keys, 0);
    }
}

/// The discriminant of a value that is no string is `<missing>`, and that of
/// a string is the string.
pub proof fn lemma_discriminant(value: JsonTree)
    ensures
        value matches JsonTree::String(s) ==> discriminant(value) == s,
        !(value is String) ==> discriminant(value) == missing(),
{
}

} // verus!
