//! The fold: from a JSON tree to its weighted stacks.
use crate::json::{items_size, lemma_item_size, lemma_member_size, members_size, Json, JsonTree};
use crate::order::{entries_view, sort_entries};
use crate::parse::{parse, parsed};
use crate::path::{array_marker, element_path, grouping_segment, join, join_path, views};
use crate::render::{append_folded_stacks, lines};
use crate::stacks::{
    folded, folds_to, lemma_fold_unique, lemma_tallies_same_entries, lemma_total_concat, total,
    Stacks,
};
use crate::weight::encoded_len;
use vstd::prelude::*;
use vstd::utf8::encode_utf8;

verus! {

/// Options controlling how JSON is transformed into folded-stack lines.
#[derive(Debug, Clone)]
pub struct FlameOpts {
    /// Sequence of keys used to group array elements (objects only).
    /// If empty, every element is treated individually (no grouping).
    pub group_keys: Vec<String>,
}

impl FlameOpts {
    /// The grouping keys, in their order.
    pub open spec fn keys(&self) -> Seq<Seq<char>> {
        views(self.group_keys@)
    }
}

impl Default for FlameOpts {
    /// No grouping.
    fn default() -> (opts: Self)
        ensures
            opts.keys() == Seq::<Seq<char>>::empty(),
    {
        let opts = FlameOpts { group_keys: Vec::new() };
        proof {
            assert(opts.keys() =~= Seq::<Seq<char>>::empty());
        }
        opts
    }
}

/// The document that a string embeds: the value that the string spells as a
/// JSON text, where it spells one whose size is at most the bytes of the
/// string. A JSON text takes at least a byte for each node of the value that
/// it spells, and for a string its bytes besides, so the test on the size
/// leaves no document out. It is stated because the walk rests on it: what
/// the walk enters is smaller than the string that it leaves, so it ends.
pub open spec fn embedded(s: Seq<char>) -> Option<JsonTree> {
    match parsed(s) {
        Some(inner) => if inner.size() <= encode_utf8(s).len() {
            Some(inner)
        } else {
            None
        },
        None => None,
    }
}

/// The leaves of `t`, each with its joined path and its weight, in the order
/// of the walk. `path` holds the segments from the root to `t`.
pub open spec fn leaves(t: JsonTree, keys: Seq<Seq<char>>, path: Seq<Seq<char>>) -> Seq<
    (Seq<char>, nat),
>
    decreases t.size(), 0nat, 0nat,
{
    match t {
        JsonTree::Array(items) => item_leaves(items, 0, keys, path.push(array_marker())),
        JsonTree::Object(members) => member_leaves(members, 0, keys, path),
        JsonTree::String(s) => match embedded(s) {
            Some(inner) => leaves(inner, keys, path),
            None => seq![(join(path), t.weight())],
        },
        _ => seq![(join(path), t.weight())],
    }
}

/// The leaves of `items[from..]`, the elements of an array whose inside has
/// the path `path`.
pub open spec fn item_leaves(
    items: Seq<JsonTree>,
    from: nat,
    keys: Seq<Seq<char>>,
    path: Seq<Seq<char>>,
) -> Seq<(Seq<char>, nat)>
    decreases items_size(items, from), 1nat, items.len() - from,
{
    if from < items.len() {
        leaves(items[from as int], keys, element_path(items[from as int], keys, path))
            + item_leaves(items, from + 1, keys, path)
    } else {
        Seq::empty()
    }
}

/// The leaves of `members[from..]`, the members of an object with the path
/// `path`.
pub open spec fn member_leaves(
    members: Seq<(Seq<char>, JsonTree)>,
    from: nat,
    keys: Seq<Seq<char>>,
    path: Seq<Seq<char>>,
) -> Seq<(Seq<char>, nat)>
    decreases members_size(members, from), 1nat, members.len() - from,
{
    if from < members.len() {
        leaves(members[from as int].1, keys, path.push(members[from as int].0)) + member_leaves(
            members,
            from + 1,
            keys,
            path,
        )
    } else {
        Seq::empty()
    }
}

/// The weight of all the leaves of `t`.
pub open spec fn total_weight(t: JsonTree) -> nat
    decreases t.size(), 0nat, 0nat,
{
    match t {
        JsonTree::Array(items) => items_weight(items, 0),
        JsonTree::Object(members) => members_weight(members, 0),
        JsonTree::String(s) => match embedded(s) {
            Some(inner) => total_weight(inner),
            None => t.weight(),
        },
        _ => t.weight(),
    }
}

/// The weight of all the leaves of `items[from..]`.
pub open spec fn items_weight(items: Seq<JsonTree>, from: nat) -> nat
    decreases items_size(items, from), 1nat, items.len() - from,
{
    if from < items.len() {
        total_weight(items[from as int]) + items_weight(items, from + 1)
    } else {
        0
    }
}

/// The weight of all the leaves of the values of `members[from..]`.
pub open spec fn members_weight(members: Seq<(Seq<char>, JsonTree)>, from: nat) -> nat
    decreases members_size(members, from), 1nat, members.len() - from,
{
    if from < members.len() {
        total_weight(members[from as int].1) + members_weight(members, from + 1)
    } else {
        0
    }
}

/// The leaves of a value weigh what the value weighs, whatever the grouping
/// and the path.
pub proof fn lemma_leaves_total(t: JsonTree, keys: Seq<Seq<char>>, path: Seq<Seq<char>>)
    ensures
        total(leaves(t, keys, path)) == total_weight(t),
    decreases t.size(), 0nat, 0nat,
{
    match t {
        JsonTree::Array(items) => {
            lemma_item_leaves_total(items, 0, keys, path.push(array_marker()));
        },
        JsonTree::Object(members) => {
            lemma_member_leaves_total(members, 0, keys, path);
        },
        JsonTree::String(s) => {
            match embedded(s) {
                Some(inner) => {
                    lemma_leaves_total(inner, keys, path);
                },
                None => {
                    lemma_leaf_total(join(path), t.weight());
                },
            }
        },
        _ => {
            lemma_leaf_total(join(path), t.weight());
        },
    }
}

proof fn lemma_leaf_total(path: Seq<char>, weight: nat)
    ensures
        total(seq![(path, weight)]) == weight,
{
    let one = seq![(path, weight)];
    assert(one.drop_last() =~= Seq::<(Seq<char>, nat)>::empty());
    assert(total(one.drop_last()) == 0);
    assert(one.last() == (path, weight));
}

pub proof fn lemma_item_leaves_total(
    items: Seq<JsonTree>,
    from: nat,
    keys: Seq<Seq<char>>,
    path: Seq<Seq<char>>,
)
    ensures
        total(item_leaves(items, from, keys, path)) == items_weight(items, from),
    decreases items_size(items, from), 1nat, items.len() - from,
{
    if from < items.len() {
        let item = items[from as int];
        lemma_leaves_total(item, keys, element_path(item, keys, path));
        lemma_item_leaves_total(items, from + 1, keys, path);
        lemma_total_concat(
            leaves(item, keys, element_path(item, keys, path)),
            item_leaves(items, from + 1, keys, path),
        );
    }
}

pub proof fn lemma_member_leaves_total(
    members: Seq<(Seq<char>, JsonTree)>,
    from: nat,
    keys: Seq<Seq<char>>,
    path: Seq<Seq<char>>,
)
    ensures
        total(member_leaves(members, from, keys, path)) == members_weight(members, from),
    decreases members_size(members, from), 1nat, members.len() - from,
{
    if from < members.len() {
        let member = members[from as int];
        lemma_leaves_total(member.1, keys, path.push(member.0));
        lemma_member_leaves_total(members, from + 1, keys, path);
        lemma_total_concat(
            leaves(member.1, keys, path.push(member.0)),
            member_leaves(members, from + 1, keys, path),
        );
    }
}

/// The document that `s` embeds, where it embeds one.
pub fn embedded_document(s: &String) -> (inner: Option<Json>)
    ensures
        match inner {
            Some(document) => embedded(s@) == Some(document@),
            None => embedded(s@) is None,
        },
{
    match parse(s.as_str()) {
        Ok(document) => {
            let length: usize = s.as_str().as_bytes().len();
            match document.spend(length) {
                Some(_) => Some(document),
                None => None,
            }
        },
        Err(_) => None,
    }
}

/// Adds the weight of all the leaves of `v` to `sum`: the new sum, or `None`
/// where it does not fit in `usize`.
fn add_weight(v: &Json, sum: usize) -> (more: Option<usize>)
    ensures
        more == if sum + total_weight(v@) <= usize::MAX {
            Some((sum + total_weight(v@)) as usize)
        } else {
            None
        },
    decreases v@.size(),
{
    match v {
        Json::Array(items) => {
            let ghost trees = v@->Array_0;
            proof {
                v.lemma_view_array();
                assert(*items == v->Array_0);
            }
            let mut more: usize = sum;
            let mut i: usize = 0;
            while i < items.len()
                invariant
                    i <= items.len(),
                    v@ == JsonTree::Array(trees),
                    trees.len() == items.len(),
                    forall|k: int| 0 <= k < items.len() ==> (#[trigger] trees[k]) == items@[k]@,
                    more + items_weight(trees, i as nat) == sum + items_weight(trees, 0),
                decreases items.len() - i,
            {
                proof {
                    lemma_item_size(trees, 0, i as int);
                }
                match add_weight(&items[i], more) {
                    Some(next) => {
                        more = next;
                    },
                    None => {
                        return None;
                    },
                }
                i += 1;
            }
            Some(more)
        },
        Json::Object(members) => {
            let ghost trees = v@->Object_0;
            proof {
                v.lemma_view_object();
                assert(*members == v->Object_0);
            }
            let mut more: usize = sum;
            let mut i: usize = 0;
            while i < members.len()
                invariant
                    i <= members.len(),
                    v@ == JsonTree::Object(trees),
                    trees.len() == members.len(),
                    forall|k: int|
                        0 <= k < members.len() ==> (#[trigger] trees[k]) == (
                            members@[k].0@,
                            members@[k].1@,
                        ),
                    more + members_weight(trees, i as nat) == sum + members_weight(trees, 0),
                decreases members.len() - i,
            {
                proof {
                    lemma_member_size(trees, 0, i as int);
                }
                match add_weight(&members[i].1, more) {
                    Some(next) => {
                        more = next;
                    },
                    None => {
                        return None;
                    },
                }
                i += 1;
            }
            Some(more)
        },
        Json::String(s) => {
            match embedded_document(s) {
                Some(document) => add_weight(&document, sum),
                None => add_leaf_weight(v, sum),
            }
        },
        _ => add_leaf_weight(v, sum),
    }
}

/// Adds the weight of the leaf `v` to `sum`, where the new sum fits.
fn add_leaf_weight(v: &Json, sum: usize) -> (more: Option<usize>)
    requires
        v@.is_scalar(),
    ensures
        more == if sum + v@.weight() <= usize::MAX {
            Some((sum + v@.weight()) as usize)
        } else {
            None
        },
{
    match encoded_len(v) {
        Some(weight) => {
            if weight <= usize::MAX - sum {
                Some(sum + weight)
            } else {
                None
            }
        },
        None => None,
    }
}

/// The weight of all the leaves of `v`, or `None` where it does not fit in
/// `usize`.
pub fn total_weight_of(v: &Json) -> (weight: Option<usize>)
    ensures
        weight == if total_weight(v@) <= usize::MAX {
            Some(total_weight(v@) as usize)
        } else {
            None
        },
{
    add_weight(v, 0)
}

/// Records the leaf `v`, met at the path that `stack` holds.
fn record_leaf(v: &Json, stack: &Vec<String>, stacks: &mut Stacks)
    requires
        v@.is_scalar(),
        old(stacks).wf(),
        total(old(stacks).leaves()) + v@.weight() <= usize::MAX,
    ensures
        final(stacks).wf(),
        final(stacks).leaves() == old(stacks).leaves().push((join(views(stack@)), v@.weight())),
{
    let folded = join_path(stack);
    match encoded_len(v) {
        Some(weight) => {
            stacks.add(folded, weight);
        },
        None => {},
    }
}

/// Walks `v`, met at the path that `stack` holds, and records its leaves.
fn visit(v: &Json, stack: &mut Vec<String>, stacks: &mut Stacks, keys: &Vec<String>)
    requires
        old(stacks).wf(),
        total(old(stacks).leaves()) + total_weight(v@) <= usize::MAX,
    ensures
        final(stacks).wf(),
        final(stacks).leaves() == old(stacks).leaves() + leaves(
            v@,
            views(keys@),
            views(old(stack)@),
        ),
        final(stack)@ == old(stack)@,
    decreases v@.size(),
{
    let ghost before = stacks.leaves();
    let ghost outer = stack@;
    match v {
        Json::Array(items) => {
            let ghost trees = v@->Array_0;
            proof {
                v.lemma_view_array();
                assert(*items == v->Array_0);
                reveal_strlit("[]");
                assert("[]"@ =~= array_marker());
            }
            stack.push("[]".to_string());
            let ghost inner = stack@;
            proof {
                assert(views(inner) =~= views(outer).push(array_marker()));
            }
            let mut i: usize = 0;
            while i < items.len()
                invariant
                    i <= items.len(),
                    v@ == JsonTree::Array(trees),
                    trees.len() == items.len(),
                    forall|k: int| 0 <= k < items.len() ==> (#[trigger] trees[k]) == items@[k]@,
                    stack@ == inner,
                    stacks.wf(),
                    stacks.leaves() + item_leaves(trees, i as nat, views(keys@), views(inner))
                        == before + item_leaves(trees, 0, views(keys@), views(inner)),
                    total(stacks.leaves()) + items_weight(trees, i as nat) <= usize::MAX,
                decreases items.len() - i,
            {
                let ghost so_far = stacks.leaves();
                let ghost item_path = element_path(trees[i as int], views(keys@), views(inner));
                proof {
                    lemma_item_size(trees, 0, i as int);
                    lemma_leaves_total(trees[i as int], views(keys@), item_path);
                    lemma_total_concat(so_far, leaves(trees[i as int], views(keys@), item_path));
                }
                match grouping_segment(&items[i], keys) {
                    Some(segment) => {
                        stack.push(segment);
                        proof {
                            assert(views(stack@) =~= item_path);
                        }
                        visit(&items[i], stack, stacks, keys);
                        stack.pop();
                    },
                    None => {
                        visit(&items[i], stack, stacks, keys);
                    },
                }
                proof {
                    assert(stack@ =~= inner);
                    assert(stacks.leaves() + item_leaves(
                        trees,
                        (i + 1) as nat,
                        views(keys@),
                        views(inner),
                    ) =~= so_far + item_leaves(trees, i as nat, views(keys@), views(inner)));
                }
                i += 1;
            }
            stack.pop();
            proof {
                assert(stack@ =~= outer);
                assert(stacks.leaves() =~= stacks.leaves() + item_leaves(
                    trees,
                    i as nat,
                    views(keys@),
                    views(inner),
                ));
            }
        },
        Json::Object(members) => {
            let ghost trees = v@->Object_0;
            proof {
                v.lemma_view_object();
                assert(*members == v->Object_0);
            }
            let mut i: usize = 0;
            while i < members.len()
                invariant
                    i <= members.len(),
                    v@ == JsonTree::Object(trees),
                    trees.len() == members.len(),
                    forall|k: int|
                        0 <= k < members.len() ==> (#[trigger] trees[k]) == (
                            members@[k].0@,
                            members@[k].1@,
                        ),
                    stack@ == outer,
                    stacks.wf(),
                    stacks.leaves() + member_leaves(trees, i as nat, views(keys@), views(outer))
                        == before + member_leaves(trees, 0, views(keys@), views(outer)),
                    total(stacks.leaves()) + members_weight(trees, i as nat) <= usize::MAX,
                decreases members.len() - i,
            {
                let ghost so_far = stacks.leaves();
                let ghost member_path = views(outer).push(trees[i as int].0);
                proof {
                    lemma_member_size(trees, 0, i as int);
                    lemma_leaves_total(trees[i as int].1, views(keys@), member_path);
                    lemma_total_concat(
                        so_far,
                        leaves(trees[i as int].1, views(keys@), member_path),
                    );
                }
                stack.push(members[i].0.clone());
                proof {
                    assert(views(stack@) =~= member_path);
                }
                visit(&members[i].1, stack, stacks, keys);
                stack.pop();
                proof {
                    assert(stack@ =~= outer);
                    assert(stacks.leaves() + member_leaves(
                        trees,
                        (i + 1) as nat,
                        views(keys@),
                        views(outer),
                    ) =~= so_far + member_leaves(trees, i as nat, views(keys@), views(outer)));
                }
                i += 1;
            }
            proof {
                assert(stacks.leaves() =~= stacks.leaves() + member_leaves(
                    trees,
                    i as nat,
                    views(keys@),
                    views(outer),
                ));
            }
        },
        Json::String(s) => {
            match embedded_document(s) {
                Some(document) => {
                    visit(&document, stack, stacks, keys);
                },
                None => {
                    record_leaf(v, stack, stacks);
                    proof {
                        assert(stacks.leaves() =~= before + leaves(
                            v@,
                            views(keys@),
                            views(outer),
                        ));
                    }
                },
            }
        },
        _ => {
            record_leaf(v, stack, stacks);
            proof {
                assert(stacks.leaves() =~= before + leaves(v@, views(keys@), views(outer)));
            }
        },
    }
}

/// Folds a JSON value into its weighted stacks: one entry for each path that
/// leads to a leaf, with the weight of the leaves at that path, heaviest
/// first and entries of one weight by path. The leaves together must weigh
/// no more than fits in `usize`; `try_fold_json_to_stacks` tests that first.
pub fn fold_json_to_stacks(v: &Json, opts: &FlameOpts) -> (entries: Vec<(String, u64)>)
    requires
        total_weight(v@) <= usize::MAX,
    ensures
        folds_to(leaves(v@, opts.keys(), Seq::empty()), entries_view(entries@)),
        entries_view(entries@) == folded(leaves(v@, opts.keys(), Seq::empty())),
{
    let mut stack: Vec<String> = Vec::new();
    let mut stacks = Stacks::new();
    proof {
        assert(views(stack@) =~= Seq::<Seq<char>>::empty());
        assert(total(stacks.leaves()) == 0);
    }
    visit(v, &mut stack, &mut stacks, &opts.group_keys);
    proof {
        assert(stacks.leaves() =~= leaves(v@, opts.keys(), Seq::empty()));
    }
    let gathered = stacks.into_entries();
    let ghost tally = entries_view(gathered@);
    let entries = sort_entries(gathered);
    proof {
        let found = leaves(v@, opts.keys(), Seq::empty());
        let sorted = entries_view(entries@);
        lemma_tallies_same_entries(found, tally, sorted);
        lemma_fold_unique(found, sorted, folded(found));
    }
    entries
}

/// Folds a JSON value as `fold_json_to_stacks` does, where its leaves weigh
/// no more than fits in `usize`; `None` where they weigh more.
pub fn try_fold_json_to_stacks(v: &Json, opts: &FlameOpts) -> (entries: Option<Vec<(String, u64)>>)
    ensures
        match entries {
            Some(entries) => total_weight(v@) <= usize::MAX && entries_view(entries@) == folded(
                leaves(v@, opts.keys(), Seq::empty()),
            ) && folds_to(leaves(v@, opts.keys(), Seq::empty()), entries_view(entries@)),
            None => total_weight(v@) > usize::MAX,
        },
{
    match total_weight_of(v) {
        Some(_) => Some(fold_json_to_stacks(v, opts)),
        None => None,
    }
}

/// Why a text could not be folded.
#[derive(Debug)]
pub enum FoldError {
    /// The text is no JSON document: what the parser said of it.
    Syntax(serde_json::Error),
    /// The leaves of the document weigh more than fits in `usize`.
    TooHeavy,
}

/// Reads `input` as a JSON document, folds it, and appends the folded stacks
/// to `out`, one line for each entry. Where the text is no JSON document, or
/// its leaves weigh more than fits in `usize`, nothing is appended.
pub fn write_folded_stacks(input: &str, out: &mut String, opts: &FlameOpts) -> (done: Result<
    (),
    FoldError,
>)
    ensures
        match parsed(input@) {
            Some(document) => if total_weight(document) <= usize::MAX {
                done is Ok && final(out)@ == old(out)@ + lines(
                    folded(leaves(document, opts.keys(), Seq::empty())),
                )
            } else {
                done is Err && done->Err_0 is TooHeavy && final(out)@ == old(out)@
            },
            None => done is Err && done->Err_0 is Syntax && final(out)@ == old(out)@,
        },
{
    match parse(input) {
        Ok(document) => {
            match try_fold_json_to_stacks(&document, opts) {
                Some(entries) => {
                    append_folded_stacks(out, &entries);
                    Ok(())
                },
                None => Err(FoldError::TooHeavy),
            }
        },
        Err(error) => Err(FoldError::Syntax(error)),
    }
}

} // verus!
