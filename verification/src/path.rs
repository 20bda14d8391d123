//! Paths: the segments from the root to a node, and the one string that they
//! are joined to.
use crate::json::{Json, JsonTree};
use vstd::prelude::*;

verus! {

/// The segment that stands for the inside of an array: `[]`.
pub open spec fn array_marker() -> Seq<char> {
    seq!['[', ']']
}

/// What stands for the value of a grouping key that is no string: `<missing>`.
pub open spec fn missing() -> Seq<char> {
    seq!['<', 'm', 'i', 's', 's', 'i', 'n', 'g', '>']
}

/// The segments joined by `;`, with nothing escaped.
pub open spec fn join(segments: Seq<Seq<char>>) -> Seq<char>
    decreases segments.len(),
{
    if segments.len() == 0 {
        Seq::empty()
    } else if segments.len() == 1 {
        segments[0]
    } else {
        join(segments.drop_last()) + seq![';'] + segments.last()
    }
}

/// What each of the strings holds, in order.
pub open spec fn views(strings: Seq<String>) -> Seq<Seq<char>> {
    Seq::new(strings.len(), |i: int| strings[i]@)
}

/// The first member from `from` on whose key is `key`.
pub open spec fn find_key(members: Seq<(Seq<char>, JsonTree)>, key: Seq<char>, from: nat) -> Option<
    nat,
>
    decreases members.len() - from,
{
    if from >= members.len() {
        None
    } else if members[from as int].0 == key {
        Some(from)
    } else {
        find_key(members, key, from + 1)
    }
}

/// Whether the object has a member with this key.
pub open spec fn has_key(members: Seq<(Seq<char>, JsonTree)>, key: Seq<char>) -> bool {
    find_key(members, key, 0) is Some
}

/// The first of `keys`, from `from` on, that the object has.
pub open spec fn find_group_key(
    members: Seq<(Seq<char>, JsonTree)>,
    keys: Seq<Seq<char>>,
    from: nat,
) -> Option<nat>
    decreases keys.len() - from,
{
    if from >= keys.len() {
        None
    } else if has_key(members, keys[from as int]) {
        Some(from)
    } else {
        find_group_key(members, keys, from + 1)
    }
}

/// What a grouped element shows of the value under its grouping key: a string
/// as it is, anything else as `<missing>`.
pub open spec fn discriminant(value: JsonTree) -> Seq<char> {
    match value {
        JsonTree::String(s) => s,
        _ => missing(),
    }
}

/// The segment that groups an element of an array: for an object that has
/// one of `keys`, the first such key in the order of `keys`, `=`, and the
/// discriminant of its value. Other elements have none.
pub open spec fn group_segment(item: JsonTree, keys: Seq<Seq<char>>) -> Option<Seq<char>> {
    match item {
        JsonTree::Object(members) => match find_group_key(members, keys, 0) {
            Some(k) => {
                let key = keys[k as int];
                let at = find_key(members, key, 0)->Some_0;
                Some(key + seq!['='] + discriminant(members[at as int].1))
            },
            None => None,
        },
        _ => None,
    }
}

/// The path of an element of an array: the path of the array's inside, and
/// the element's grouping segment where it has one.
pub open spec fn element_path(item: JsonTree, keys: Seq<Seq<char>>, path: Seq<Seq<char>>) -> Seq<
    Seq<char>,
> {
    match group_segment(item, keys) {
        Some(segment) => path.push(segment),
        None => path,
    }
}

/// A key that `find_key` finds is there, and no member before it has it.
pub proof fn lemma_find_key(members: Seq<(Seq<char>, JsonTree)>, key: Seq<char>, from: nat)
    ensures
        match find_key(members, key, from) {
            Some(at) => from <= at < members.len() && members[at as int].0 == key && forall|j: int|
                from <= j < at ==> (#[trigger] members[j]).0 != key,
            None => forall|j: int| from <= j < members.len() ==> (#[trigger] members[j]).0 != key,
        },
    decreases members.len() - from,
{
    if from < members.len() && members[from as int].0 != key {
        lemma_find_key(members, key, from + 1);
    }
}

/// The key that `find_group_key` finds is one that the object has, and the
/// object has none of the keys before it.
pub proof fn lemma_find_group_key(
    members: Seq<(Seq<char>, JsonTree)>,
    keys: Seq<Seq<char>>,
    from: nat,
)
    ensures
        match find_group_key(members, keys, from) {
            Some(k) => from <= k < keys.len() && has_key(members, keys[k as int]) && forall|j: int|
                from <= j < k ==> !has_key(members, #[trigger] keys[j]),
            None => forall|j: int| from <= j < keys.len() ==> !has_key(members, #[trigger] keys[j]),
        },
    decreases keys.len() - from,
{
    if from < keys.len() && !has_key(members, keys[from as int]) {
        lemma_find_group_key(members, keys, from + 1);
    }
}

/// The segments of `stack`, joined by `;`.
pub fn join_path(stack: &Vec<String>) -> (joined: String)
    ensures
        joined@ == join(views(stack@)),
{
    let mut joined = String::new();
    let mut i: usize = 0;
    while i < stack.len()
        invariant
            i <= stack.len(),
            joined@ == join(views(stack@).take(i as int)),
        decreases stack.len() - i,
    {
        proof {
            reveal_strlit(";");
            assert(views(stack@).take(i + 1).drop_last() =~= views(stack@).take(i as int));
        }
        if i > 0 {
            joined.append(";");
        }
        joined.append(stack[i].as_str());
        i += 1;
        proof {
            assert(";"@ =~= seq![';']);
            assert(joined@ =~= join(views(stack@).take(i as int)));
        }
    }
    proof {
        assert(views(stack@).take(i as int) =~= views(stack@));
    }
    joined
}

/// The index of the first member of an object whose key is `key`.
pub fn find_member(members: &Vec<(String, Json)>, key: &String) -> (at: Option<usize>)
    ensures
        match at {
            Some(i) => find_key(crate::json::members_view(members@), key@, 0) == Some(i as nat),
            None => find_key(crate::json::members_view(members@), key@, 0) is None,
        },
{
    let ghost model = crate::json::members_view(members@);
    let mut i: usize = 0;
    while i < members.len()
        invariant
            i <= members.len(),
            model == crate::json::members_view(members@),
            find_key(model, key@, 0) == find_key(model, key@, i as nat),
        decreases members.len() - i,
    {
        if members[i].0 == *key {
            return Some(i);
        }
        i += 1;
    }
    None
}

/// The segment that groups `item` as an element of an array, where it has one.
pub fn grouping_segment(item: &Json, keys: &Vec<String>) -> (segment: Option<String>)
    ensures
        match segment {
            Some(s) => group_segment(item@, views(keys@)) == Some(s@),
            None => group_segment(item@, views(keys@)) is None,
        },
{
    match item {
        Json::Object(members) => {
            let ghost model = crate::json::members_view(members@);
            proof {
                item.lemma_view_object();
                assert(*members == item->Object_0);
                assert(item@ == JsonTree::Object(model));
            }
            let mut k: usize = 0;
            while k < keys.len()
                invariant
                    k <= keys.len(),
                    model == crate::json::members_view(members@),
                    item@ == JsonTree::Object(model),
                    find_group_key(model, views(keys@), 0) == find_group_key(
                        model,
                        views(keys@),
                        k as nat,
                    ),
                decreases keys.len() - k,
            {
                match find_member(members, &keys[k]) {
                    Some(at) => {
                        proof {
                            lemma_find_key(model, keys@[k as int]@, 0);
                            reveal_strlit("=");
                            reveal_strlit("<missing>");
                            assert("="@ =~= seq!['=']);
                            assert("<missing>"@ =~= missing());
                        }
                        let ghost key = views(keys@)[k as int];
                        proof {
                            assert(key == keys@[k as int]@);
                            assert(find_key(model, key, 0) == Some(at as nat));
                            assert(find_group_key(model, views(keys@), k as nat) == Some(k as nat));
                            assert(model[at as int].1 == members@[at as int].1@);
                        }
                        let mut segment = keys[k].clone();
                        segment.append("=");
                        match &members[at].1 {
                            Json::String(s) => {
                                segment.append(s.as_str());
                            },
                            _ => {
                                segment.append("<missing>");
                            },
                        }
                        proof {
                            assert(segment@ =~= key + seq!['='] + discriminant(model[at as int].1));
                        }
                        return Some(segment);
                    },
                    None => {},
                }
                k += 1;
            }
            None
        },
        _ => None,
    }
}

} // verus!
