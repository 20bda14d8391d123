//! The JSON tree that the fold walks, and its mathematical model.
use vstd::prelude::*;
use vstd::utf8::encode_utf8;

verus! {

/// The model of a JSON value: what contracts speak of.
pub enum JsonTree {
    Null,
    Bool(bool),
    /// A number, as the text of its minified serialization.
    Number(Seq<char>),
    String(Seq<char>),
    Array(Seq<JsonTree>),
    /// The members of an object, in the order in which they are walked.
    Object(Seq<(Seq<char>, JsonTree)>),
}

/// A JSON value.
#[derive(Debug)]
pub enum Json {
    Null,
    Bool(bool),
    /// A number, held as the text of its minified serialization (`10`, `-3`, `2.5`).
    Number(String),
    String(String),
    Array(Vec<Json>),
    /// The members of an object, in the order in which they are walked.
    Object(Vec<(String, Json)>),
}

impl View for Json {
    type V = JsonTree;

    open spec fn view(&self) -> JsonTree
        decreases self,
    {
        match self {
            Json::Null => JsonTree::Null,
            Json::Bool(b) => JsonTree::Bool(*b),
            Json::Number(text) => JsonTree::Number(text@),
            Json::String(s) => JsonTree::String(s@),
            Json::Array(items) => JsonTree::Array(items_view(items@)),
            Json::Object(members) => JsonTree::Object(members_view(members@)),
        }
    }
}

/// The models of the items of an array, in order.
pub open spec fn items_view(items: Seq<Json>) -> Seq<JsonTree>
    decreases items,
{
    Seq::new(
        items.len(),
        |i: int|
            if 0 <= i < items.len() {
                items[i]@
            } else {
                JsonTree::Null
            },
    )
}

/// The keys of an object and the models of their values, in order.
pub open spec fn members_view(members: Seq<(String, Json)>) -> Seq<(Seq<char>, JsonTree)>
    decreases members,
{
    Seq::new(
        members.len(),
        |i: int|
            if 0 <= i < members.len() {
                (members[i].0@, members[i].1@)
            } else {
                (Seq::empty(), JsonTree::Null)
            },
    )
}

impl JsonTree {
    /// Whether the value has no children: everything but arrays and objects.
    pub open spec fn is_scalar(self) -> bool {
        !(self is Array) && !(self is Object)
    }

    /// A measure of the value: one for each node, and for a string the bytes
    /// of its UTF-8 encoding as well. A JSON text is at least this long in
    /// bytes, whatever value it spells.
    pub open spec fn size(self) -> nat
        decreases self,
    {
        match self {
            JsonTree::Array(items) => 1 + items_size(items, 0),
            JsonTree::Object(members) => 1 + members_size(members, 0),
            JsonTree::String(s) => 1 + encode_utf8(s).len(),
            _ => 1,
        }
    }
}

/// The sizes of `items[from..]`, added up.
pub open spec fn items_size(items: Seq<JsonTree>, from: nat) -> nat
    decreases items, items.len() - from,
{
    if from < items.len() {
        items[from as int].size() + items_size(items, from + 1)
    } else {
        0
    }
}

/// The sizes of the values of `members[from..]`, added up.
pub open spec fn members_size(members: Seq<(Seq<char>, JsonTree)>, from: nat) -> nat
    decreases members, members.len() - from,
{
    if from < members.len() {
        members[from as int].1.size() + members_size(members, from + 1)
    } else {
        0
    }
}

/// Every value has a positive size.
pub proof fn lemma_size_positive(t: JsonTree)
    ensures
        t.size() >= 1,
{
}

/// An item of an array is smaller than what is left of the array from it on.
pub proof fn lemma_item_size(items: Seq<JsonTree>, from: nat, i: int)
    requires
        from <= i < items.len(),
    ensures
        items[i].size() <= items_size(items, from),
        items_size(items, (i + 1) as nat) + items[i].size() <= items_size(items, from),
    decreases i - from,
{
    if from < i {
        lemma_item_size(items, from + 1, i);
    }
}

/// A member's value is smaller than what is left of the object from it on.
pub proof fn lemma_member_size(members: Seq<(Seq<char>, JsonTree)>, from: nat, i: int)
    requires
        from <= i < members.len(),
    ensures
        members[i].1.size() <= members_size(members, from),
        members_size(members, (i + 1) as nat) + members[i].1.size() <= members_size(members, from),
    decreases i - from,
{
    if from < i {
        lemma_member_size(members, from + 1, i);
    }
}

impl Json {
    /// The model of an array holds the models of its items, in order.
    pub proof fn lemma_view_array(self)
        requires
            self is Array,
        ensures
            self@ is Array,
            self@->Array_0.len() == self->Array_0@.len(),
            forall|k: int|
                0 <= k < self->Array_0@.len() ==> (#[trigger] self@->Array_0[k])
                    == self->Array_0@[k]@,
    {
    }

    /// The model of an object holds its keys and the models of their values,
    /// in order.
    pub proof fn lemma_view_object(self)
        requires
            self is Object,
        ensures
            self@ is Object,
            self@->Object_0.len() == self->Object_0@.len(),
            forall|k: int|
                0 <= k < self->Object_0@.len() ==> (#[trigger] self@->Object_0[k]) == (
                    self->Object_0@[k].0@,
                    self->Object_0@[k].1@,
                ),
    {
        assert(self@ == JsonTree::Object(members_view(self->Object_0@)));
    }

    /// Takes the size of `self` from `budget`: what is left of it, or `None`
    /// where the value is larger than the budget.
    pub fn spend(&self, budget: usize) -> (left: Option<usize>)
        ensures
            left == if self@.size() <= budget {
                Some((budget - self@.size()) as usize)
            } else {
                None
            },
        decreases self@.size(),
    {
        if budget == 0 {
            proof {
                lemma_size_positive(self@);
            }
            return None;
        }
        let mut left: usize = budget - 1;
        match self {
            Json::Array(items) => {
                let ghost trees = self@->Array_0;
                proof {
                    self.lemma_view_array();
                    assert(*items == self->Array_0);
                }
                let mut i: usize = 0;
                while i < items.len()
                    invariant
                        i <= items.len(),
                        self@ == JsonTree::Array(trees),
                        trees.len() == items.len(),
                        forall|k: int| 0 <= k < items.len() ==> (#[trigger] trees[k]) == items@[k]@,
                        budget - 1 - left + items_size(trees, i as nat) == items_size(trees, 0),
                        left < budget,
                    decreases items.len() - i,
                {
                    proof {
                        lemma_item_size(trees, 0, i as int);
                    }
                    match items[i].spend(left) {
                        Some(rest) => {
                            left = rest;
                        },
                        None => {
                            return None;
                        },
                    }
                    i += 1;
                }
                Some(left)
            },
            Json::Object(members) => {
                let ghost trees = self@->Object_0;
                proof {
                    self.lemma_view_object();
                    assert(*members == self->Object_0);
                }
                let mut i: usize = 0;
                while i < members.len()
                    invariant
                        i <= members.len(),
                        self@ == JsonTree::Object(trees),
                        trees.len() == members.len(),
                        forall|k: int|
                            0 <= k < members.len() ==> (#[trigger] trees[k]) == (
                                members@[k].0@,
                                members@[k].1@,
                            ),
                        budget - 1 - left + members_size(trees, i as nat) == members_size(trees, 0),
                        left < budget,
                    decreases members.len() - i,
                {
                    proof {
                        lemma_member_size(trees, 0, i as int);
                    }
                    match members[i].1.spend(left) {
                        Some(rest) => {
                            left = rest;
                        },
                        None => {
                            return None;
                        },
                    }
                    i += 1;
                }
                Some(left)
            },
            Json::String(s) => {
                let n: usize = s.as_str().as_bytes().len();
                if n <= left {
                    Some(left - n)
                } else {
                    None
                }
            },
            _ => Some(left),
        }
    }
}

} // verus!
