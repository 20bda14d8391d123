//! The weights that a walk gathers, path by path.
use crate::order::{distinct_paths, entries_view, ordered};
use vstd::hash_map::StringHashMap;
use vstd::prelude::*;

verus! {

/// Whether one of the pairs has this path.
pub open spec fn has_path(pairs: Seq<(Seq<char>, nat)>, path: Seq<char>) -> bool {
    exists|k: int| 0 <= k < pairs.len() && (#[trigger] pairs[k]).0 == path
}

/// The weights of the leaves at `path`, added up.
pub open spec fn weight_at(leaves: Seq<(Seq<char>, nat)>, path: Seq<char>) -> nat
    decreases leaves.len(),
{
    if leaves.len() == 0 {
        0
    } else if leaves.last().0 == path {
        weight_at(leaves.drop_last(), path) + leaves.last().1
    } else {
        weight_at(leaves.drop_last(), path)
    }
}

/// The weights of all the pairs, added up.
pub open spec fn total(pairs: Seq<(Seq<char>, nat)>) -> nat
    decreases pairs.len(),
{
    if pairs.len() == 0 {
        0
    } else {
        total(pairs.drop_last()) + pairs.last().1
    }
}

/// Whether `entries` tally `leaves`: one entry for each path that a leaf
/// has, with the weights of the leaves at that path added up, and no other.
pub open spec fn tallies(leaves: Seq<(Seq<char>, nat)>, entries: Seq<(Seq<char>, nat)>) -> bool {
    &&& distinct_paths(entries)
    &&& forall|i: int|
        0 <= i < entries.len() ==> has_path(leaves, (#[trigger] entries[i]).0) && entries[i].1
            == weight_at(leaves, entries[i].0)
    &&& forall|k: int| 0 <= k < leaves.len() ==> has_path(entries, (#[trigger] leaves[k]).0)
}

/// Whether `entries` are what `leaves` fold to: their tally, heaviest first,
/// entries of one weight by path.
pub open spec fn folds_to(leaves: Seq<(Seq<char>, nat)>, entries: Seq<(Seq<char>, nat)>) -> bool {
    ordered(entries) && tallies(leaves, entries)
}

/// The leaves at one path weigh no more than all the leaves.
pub proof fn lemma_weight_at_bounded(leaves: Seq<(Seq<char>, nat)>, path: Seq<char>)
    ensures
        weight_at(leaves, path) <= total(leaves),
    decreases leaves.len(),
{
    if leaves.len() > 0 {
        lemma_weight_at_bounded(leaves.drop_last(), path);
    }
}

/// A path that no leaf has weighs nothing.
pub proof fn lemma_weight_at_absent(leaves: Seq<(Seq<char>, nat)>, path: Seq<char>)
    requires
        !has_path(leaves, path),
    ensures
        weight_at(leaves, path) == 0,
    decreases leaves.len(),
{
    if leaves.len() > 0 {
        assert(leaves[leaves.len() - 1].0 != path);
        assert forall|k: int| 0 <= k < leaves.drop_last().len() implies (
        #[trigger] leaves.drop_last()[k]).0 != path by {
            assert(leaves[k].0 != path);
        }
        lemma_weight_at_absent(leaves.drop_last(), path);
    }
}

/// The total of two runs of leaves is the sum of their totals.
pub proof fn lemma_total_concat(a: Seq<(Seq<char>, nat)>, b: Seq<(Seq<char>, nat)>)
    ensures
        total(a + b) == total(a) + total(b),
    decreases b.len(),
{
    if b.len() == 0 {
        assert(a + b =~= a);
    } else {
        assert((a + b).drop_last() =~= a + b.drop_last());
        lemma_total_concat(a, b.drop_last());
    }
}

/// Entries that tally the leaves still do so in any order.
pub proof fn lemma_tallies_same_entries(
    leaves: Seq<(Seq<char>, nat)>,
    entries: Seq<(Seq<char>, nat)>,
    sorted: Seq<(Seq<char>, nat)>,
)
    requires
        tallies(leaves, entries),
        ordered(sorted),
        forall|e: (Seq<char>, nat)| sorted.contains(e) <==> entries.contains(e),
    ensures
        folds_to(leaves, sorted),
{
    assert forall|i: int| 0 <= i < sorted.len() implies has_path(leaves, (#[trigger] sorted[i]).0)
        && sorted[i].1 == weight_at(leaves, sorted[i].0) by {
        assert(sorted.contains(sorted[i]));
        let j = choose|j: int| 0 <= j < entries.len() && entries[j] == sorted[i];
        assert(has_path(leaves, entries[j].0));
    }
    assert forall|i: int, j: int| 0 <= i < j < sorted.len() implies (#[trigger] sorted[i]).0 != (
    #[trigger] sorted[j]).0 by {
        if sorted[i].0 == sorted[j].0 {
            assert(sorted[i] == sorted[j]);
            crate::order::lemma_entry_before_irreflexive(sorted[i]);
        }
    }
    assert forall|k: int| 0 <= k < leaves.len() implies has_path(
        sorted,
        (#[trigger] leaves[k]).0,
    ) by {
        let i = choose|i: int| 0 <= i < entries.len() && (#[trigger] entries[i]).0 == leaves[k].0;
        assert(entries.contains(entries[i]));
        let j = choose|j: int| 0 <= j < sorted.len() && sorted[j] == entries[i];
        assert(sorted[j].0 == leaves[k].0);
    }
}

/// Two ordered runs of the same entries are one and the same run.
pub proof fn lemma_ordered_same_entries(a: Seq<(Seq<char>, nat)>, b: Seq<(Seq<char>, nat)>)
    requires
        ordered(a),
        ordered(b),
        forall|e: (Seq<char>, nat)| a.contains(e) <==> b.contains(e),
    ensures
        a == b,
    decreases a.len(),
{
    if a.len() == 0 {
        if b.len() > 0 {
            assert(b.contains(b[0]));
        }
        assert(a =~= b);
    } else {
        assert(a.contains(a[0]));
        let j = choose|j: int| 0 <= j < b.len() && b[j] == a[0];
        assert(b.contains(b[0]));
        let i = choose|i: int| 0 <= i < a.len() && a[i] == b[0];
        if j > 0 {
            if i > 0 {
                crate::order::lemma_entry_before_transitive(a[0], b[0], a[0]);
            }
            crate::order::lemma_entry_before_irreflexive(a[0]);
        }
        let rest_a = a.drop_first();
        let rest_b = b.drop_first();
        assert forall|e: (Seq<char>, nat)| rest_a.contains(e) <==> rest_b.contains(e) by {
            crate::order::lemma_entry_before_irreflexive(e);
            if rest_a.contains(e) {
                let k = choose|k: int| 0 <= k < rest_a.len() && rest_a[k] == e;
                assert(a[k + 1] == e);
                assert(a.contains(e));
                let m = choose|m: int| 0 <= m < b.len() && b[m] == e;
                assert(m > 0);
                assert(rest_b[m - 1] == e);
            }
            if rest_b.contains(e) {
                let k = choose|k: int| 0 <= k < rest_b.len() && rest_b[k] == e;
                assert(b[k + 1] == e);
                assert(b.contains(e));
                let m = choose|m: int| 0 <= m < a.len() && a[m] == e;
                assert(m > 0);
                assert(rest_a[m - 1] == e);
            }
        }
        assert forall|x: int, y: int| 0 <= x < y < rest_a.len() implies crate::order::entry_before(
            #[trigger] rest_a[x],
            #[trigger] rest_a[y],
        ) by {
            assert(rest_a[x] == a[x + 1] && rest_a[y] == a[y + 1]);
        }
        assert forall|x: int, y: int| 0 <= x < y < rest_b.len() implies crate::order::entry_before(
            #[trigger] rest_b[x],
            #[trigger] rest_b[y],
        ) by {
            assert(rest_b[x] == b[x + 1] && rest_b[y] == b[y + 1]);
        }
        lemma_ordered_same_entries(rest_a, rest_b);
        assert(a =~= seq![a[0]] + rest_a);
        assert(b =~= seq![b[0]] + rest_b);
    }
}

/// Entries that tally the leaves are among any other entries that do.
proof fn lemma_tallies_contained(
    leaves: Seq<(Seq<char>, nat)>,
    a: Seq<(Seq<char>, nat)>,
    b: Seq<(Seq<char>, nat)>,
    e: (Seq<char>, nat),
)
    requires
        tallies(leaves, a),
        tallies(leaves, b),
        a.contains(e),
    ensures
        b.contains(e),
{
    let i = choose|i: int| 0 <= i < a.len() && a[i] == e;
    assert(has_path(leaves, a[i].0));
    let k = choose|k: int| 0 <= k < leaves.len() && (#[trigger] leaves[k]).0 == e.0;
    assert(has_path(b, leaves[k].0));
    let j = choose|j: int| 0 <= j < b.len() && (#[trigger] b[j]).0 == e.0;
    assert(b[j].1 == weight_at(leaves, b[j].0));
    assert(b[j] == e);
}

/// The leaves fold to one run of entries and no other.
pub proof fn lemma_fold_unique(
    leaves: Seq<(Seq<char>, nat)>,
    a: Seq<(Seq<char>, nat)>,
    b: Seq<(Seq<char>, nat)>,
)
    requires
        folds_to(leaves, a),
        folds_to(leaves, b),
    ensures
        a == b,
{
    assert forall|e: (Seq<char>, nat)| a.contains(e) <==> b.contains(e) by {
        if a.contains(e) {
            lemma_tallies_contained(leaves, a, b, e);
        }
        if b.contains(e) {
            lemma_tallies_contained(leaves, b, a, e);
        }
    }
    lemma_ordered_same_entries(a, b);
}

/// What the leaves fold to.
pub open spec fn folded(leaves: Seq<(Seq<char>, nat)>) -> Seq<(Seq<char>, nat)> {
    choose|entries: Seq<(Seq<char>, nat)>| folds_to(leaves, entries)
}

/// The accumulator of a walk: for each path met so far, the weight of the
/// leaves met at it.
pub struct Stacks {
    index: StringHashMap<usize>,
    paths: Vec<String>,
    weights: Vec<u64>,
    leaves: Ghost<Seq<(Seq<char>, nat)>>,
}

impl Stacks {
    /// The leaves added so far, in the order in which they came.
    pub closed spec fn leaves(&self) -> Seq<(Seq<char>, nat)> {
        self.leaves@
    }

    /// The invariant: each path met stands once, with the weight of its
    /// leaves, and all the leaves together fit in `usize`.
    pub closed spec fn wf(&self) -> bool {
        &&& self.paths@.len() == self.weights@.len()
        &&& total(self.leaves@) <= usize::MAX
        &&& forall|i: int|
            0 <= i < self.paths@.len() ==> self.index@.contains_key((#[trigger] self.paths@[i])@)
                && self.index@[self.paths@[i]@] == i
        &&& forall|p: Seq<char>| #[trigger]
            self.index@.contains_key(p) ==> self.index@[p] < self.paths@.len()
                && self.paths@[self.index@[p] as int]@ == p
        &&& forall|i: int|
            0 <= i < self.paths@.len() ==> has_path(self.leaves@, (#[trigger] self.paths@[i])@)
                && self.weights@[i] == weight_at(self.leaves@, self.paths@[i]@)
        &&& forall|k: int|
            0 <= k < self.leaves@.len() ==> self.index@.contains_key((#[trigger] self.leaves@[k]).0)
    }

    /// An accumulator that has met no leaf.
    pub fn new() -> (stacks: Self)
        ensures
            stacks.wf(),
            stacks.leaves() == Seq::<(Seq<char>, nat)>::empty(),
    {
        Stacks {
            index: StringHashMap::new(),
            paths: Vec::new(),
            weights: Vec::new(),
            leaves: Ghost(Seq::empty()),
        }
    }

    /// Adds a leaf of `weight` bytes at `path`.
    pub fn add(&mut self, path: String, weight: usize)
        requires
            old(self).wf(),
            total(old(self).leaves()) + weight <= usize::MAX,
        ensures
            final(self).wf(),
            final(self).leaves() == old(self).leaves().push((path@, weight as nat)),
    {
        let ghost before = self.leaves@;
        let ghost after = before.push((path@, weight as nat));
        proof {
            assert(after.drop_last() =~= before);
            assert forall|q: Seq<char>| has_path(before, q) implies has_path(after, q) by {
                let k = choose|k: int| 0 <= k < before.len() && (#[trigger] before[k]).0 == q;
                assert(after[k].0 == q);
            }
            assert(has_path(after, path@)) by {
                assert(after[before.len() as int].0 == path@);
            }
        }
        let found: Option<usize> = match self.index.get(path.as_str()) {
            Some(i) => Some(*i),
            None => None,
        };
        match found {
            Some(i) => {
                proof {
                    lemma_weight_at_bounded(before, path@);
                }
                let sum: u64 = self.weights[i] + weight as u64;
                self.weights[i] = sum;
            },
            None => {
                proof {
                    if has_path(before, path@) {
                        let k = choose|k: int|
                            0 <= k < before.len() && (#[trigger] before[k]).0 == path@;
                        assert(self.index@.contains_key(before[k].0));
                    }
                    lemma_weight_at_absent(before, path@);
                }
                let at: usize = self.paths.len();
                self.index.insert(path.clone(), at);
                self.paths.push(path);
                self.weights.push(weight as u64);
            },
        }
        self.leaves = Ghost(after);
    }

    /// The entries gathered: one for each path met, in no particular order.
    pub fn into_entries(self) -> (entries: Vec<(String, u64)>)
        requires
            self.wf(),
        ensures
            tallies(self.leaves(), entries_view(entries@)),
    {
        let ghost leaves = self.leaves@;
        let ghost all_paths = self.paths@;
        let ghost all_weights = self.weights@;
        let mut paths = self.paths;
        let mut weights = self.weights;
        let mut entries: Vec<(String, u64)> = Vec::new();
        while paths.len() > 0
            invariant
                paths@.len() == weights@.len(),
                paths@.len() + entries@.len() == all_paths.len(),
                all_paths.len() == all_weights.len(),
                paths@ == all_paths.take(paths@.len() as int),
                weights@ == all_weights.take(paths@.len() as int),
                forall|j: int|
                    0 <= j < entries@.len() ==> (#[trigger] entries@[j]).0 == all_paths[all_paths.len()
                        - 1 - j] && entries@[j].1 == all_weights[all_paths.len() - 1 - j],
            decreases paths.len(),
        {
            let path = paths.pop().unwrap();
            let weight = weights.pop().unwrap();
            entries.push((path, weight));
            proof {
                assert(paths@ =~= all_paths.take(paths@.len() as int));
                assert(weights@ =~= all_weights.take(paths@.len() as int));
            }
        }
        proof {
            let view = entries_view(entries@);
            let n = all_paths.len() as int;
            assert forall|i: int| 0 <= i < view.len() implies has_path(
                leaves,
                (#[trigger] view[i]).0,
            ) && view[i].1 == weight_at(leaves, view[i].0) by {
                assert(view[i].0 == all_paths[n - 1 - i]@);
            }
            assert forall|i: int, j: int| 0 <= i < j < view.len() implies (#[trigger] view[i]).0 != (
            #[trigger] view[j]).0 by {
                assert(view[i].0 == all_paths[n - 1 - i]@);
                assert(view[j].0 == all_paths[n - 1 - j]@);
            }
            assert forall|k: int| 0 <= k < leaves.len() implies has_path(
                view,
                (#[trigger] leaves[k]).0,
            ) by {
                let at = self.index@[leaves[k].0] as int;
                assert(self.index@.contains_key(leaves[k].0));
                assert(view[n - 1 - at].0 == all_paths[at]@);
            }
        }
        entries
    }
}

} // verus!
