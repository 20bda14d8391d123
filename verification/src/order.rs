//! The order of the folded entries: heavier first, and among entries of one
//! weight the one whose path comes first byte by byte.
use vstd::prelude::*;
use vstd::utf8::{encode_utf8, encode_utf8_decode_utf8};

verus! {

/// Whether `a` comes before `b` byte by byte: at the first place where they
/// differ `a` has the lower byte, or `a` ends there and `b` goes on.
pub open spec fn bytes_before(a: Seq<u8>, b: Seq<u8>) -> bool
    decreases a.len(),
{
    if b.len() == 0 {
        false
    } else if a.len() == 0 {
        true
    } else if a[0] != b[0] {
        a[0] < b[0]
    } else {
        bytes_before(a.drop_first(), b.drop_first())
    }
}

/// Whether the path `a` comes before the path `b`: by the bytes of their
/// UTF-8 encodings.
pub open spec fn path_before(a: Seq<char>, b: Seq<char>) -> bool {
    bytes_before(encode_utf8(a), encode_utf8(b))
}

/// Whether the entry `a` comes before the entry `b` in the output.
pub open spec fn entry_before(a: (Seq<char>, nat), b: (Seq<char>, nat)) -> bool {
    a.1 > b.1 || (a.1 == b.1 && path_before(a.0, b.0))
}

/// Whether each entry comes before all that follow it.
pub open spec fn ordered(entries: Seq<(Seq<char>, nat)>) -> bool {
    forall|i: int, j: int|
        0 <= i < j < entries.len() ==> entry_before(#[trigger] entries[i], #[trigger] entries[j])
}

/// What a vector of entries holds: each path by its view, each weight as a
/// natural number.
pub open spec fn entries_view(entries: Seq<(String, u64)>) -> Seq<(Seq<char>, nat)> {
    Seq::new(entries.len(), |i: int| (entries[i].0@, entries[i].1 as nat))
}

pub proof fn lemma_bytes_before_irreflexive(a: Seq<u8>)
    ensures
        !bytes_before(a, a),
    decreases a.len(),
{
    if a.len() > 0 {
        lemma_bytes_before_irreflexive(a.drop_first());
    }
}

pub proof fn lemma_bytes_before_transitive(a: Seq<u8>, b: Seq<u8>, c: Seq<u8>)
    requires
        bytes_before(a, b),
        bytes_before(b, c),
    ensures
        bytes_before(a, c),
    decreases a.len(),
{
    if a.len() > 0 && a[0] == b[0] && b[0] == c[0] {
        lemma_bytes_before_transitive(a.drop_first(), b.drop_first(), c.drop_first());
    }
}

pub proof fn lemma_bytes_before_total(a: Seq<u8>, b: Seq<u8>)
    requires
        a != b,
    ensures
        bytes_before(a, b) || bytes_before(b, a),
    decreases a.len(),
{
    if a.len() > 0 && b.len() > 0 && a[0] == b[0] {
        if a.drop_first() == b.drop_first() {
            assert(a =~= seq![a[0]] + a.drop_first());
            assert(b =~= seq![b[0]] + b.drop_first());
        }
        lemma_bytes_before_total(a.drop_first(), b.drop_first());
    } else if a.len() == 0 && b.len() == 0 {
        assert(a =~= b);
    }
}

/// No entry comes before itself.
pub proof fn lemma_entry_before_irreflexive(a: (Seq<char>, nat))
    ensures
        !entry_before(a, a),
{
    lemma_bytes_before_irreflexive(encode_utf8(a.0));
}

/// What comes before an entry comes before all that the entry comes before.
pub proof fn lemma_entry_before_transitive(
    a: (Seq<char>, nat),
    b: (Seq<char>, nat),
    c: (Seq<char>, nat),
)
    requires
        entry_before(a, b),
        entry_before(b, c),
    ensures
        entry_before(a, c),
{
    if a.1 == b.1 && b.1 == c.1 {
        lemma_bytes_before_transitive(encode_utf8(a.0), encode_utf8(b.0), encode_utf8(c.0));
    }
}

/// Of two entries with different paths one comes before the other.
pub proof fn lemma_entry_before_total(a: (Seq<char>, nat), b: (Seq<char>, nat))
    requires
        a.0 != b.0,
    ensures
        entry_before(a, b) || entry_before(b, a),
{
    encode_utf8_decode_utf8(a.0);
    encode_utf8_decode_utf8(b.0);
    lemma_bytes_before_total(encode_utf8(a.0), encode_utf8(b.0));
}

/// Whether the bytes `a` come before the bytes `b`.
pub fn bytes_precede(a: &[u8], b: &[u8]) -> (before: bool)
    ensures
        before == bytes_before(a@, b@),
{
    let mut i: usize = 0;
    proof {
        assert(a@.skip(0) =~= a@);
        assert(b@.skip(0) =~= b@);
    }
    while i < a.len() && i < b.len()
        invariant
            i <= a.len(),
            i <= b.len(),
            bytes_before(a@, b@) == bytes_before(a@.skip(i as int), b@.skip(i as int)),
        decreases a.len() - i,
    {
        proof {
            assert(a@.skip(i as int).drop_first() =~= a@.skip(i + 1));
            assert(b@.skip(i as int).drop_first() =~= b@.skip(i + 1));
        }
        if a[i] != b[i] {
            return a[i] < b[i];
        }
        i += 1;
    }
    i < b.len()
}

/// Whether the entry `a` comes before the entry `b` in the output.
pub fn entry_precedes(a: &(String, u64), b: &(String, u64)) -> (before: bool)
    ensures
        before == entry_before((a.0@, a.1 as nat), (b.0@, b.1 as nat)),
{
    if a.1 != b.1 {
        a.1 > b.1
    } else {
        bytes_precede(a.0.as_str().as_bytes(), b.0.as_str().as_bytes())
    }
}

/// Whether no two of the entries have the same path.
pub open spec fn distinct_paths(entries: Seq<(Seq<char>, nat)>) -> bool {
    forall|i: int, j: int|
        0 <= i < j < entries.len() ==> (#[trigger] entries[i]).0 != (#[trigger] entries[j]).0
}

/// Where `entry` belongs among the ordered `sorted`: the place before which
/// everything comes before it, and from which on it comes before everything.
fn place_of(sorted: &Vec<(String, u64)>, entry: &(String, u64)) -> (at: usize)
    requires
        ordered(entries_view(sorted@)),
        forall|j: int| 0 <= j < sorted.len() ==> (#[trigger] sorted@[j]).0@ != entry.0@,
    ensures
        at <= sorted.len(),
        forall|j: int|
            0 <= j < at ==> entry_before(
                #[trigger] entries_view(sorted@)[j],
                (entry.0@, entry.1 as nat),
            ),
        forall|j: int|
            at <= j < sorted.len() ==> entry_before(
                (entry.0@, entry.1 as nat),
                #[trigger] entries_view(sorted@)[j],
            ),
{
    let ghost held = entries_view(sorted@);
    let ghost new = (entry.0@, entry.1 as nat);
    let mut low: usize = 0;
    let mut high: usize = sorted.len();
    while low < high
        invariant
            low <= high <= sorted.len(),
            held == entries_view(sorted@),
            new == (entry.0@, entry.1 as nat),
            ordered(held),
            forall|j: int| 0 <= j < sorted.len() ==> (#[trigger] sorted@[j]).0@ != entry.0@,
            forall|j: int| 0 <= j < low ==> entry_before(#[trigger] held[j], new),
            forall|j: int| high <= j < sorted.len() ==> entry_before(new, #[trigger] held[j]),
        decreases high - low,
    {
        let middle: usize = low + (high - low) / 2;
        assert(held[middle as int] == (sorted@[middle as int].0@, sorted@[middle as int].1 as nat));
        if entry_precedes(entry, &sorted[middle]) {
            assert forall|j: int| middle <= j < sorted.len() implies entry_before(
                new,
                #[trigger] held[j],
            ) by {
                if middle < j {
                    lemma_entry_before_transitive(new, held[middle as int], held[j]);
                }
            }
            high = middle;
        } else {
            proof {
                lemma_entry_before_total(new, held[middle as int]);
            }
            assert forall|j: int| 0 <= j < middle + 1 implies entry_before(
                #[trigger] held[j],
                new,
            ) by {
                if j < middle {
                    lemma_entry_before_transitive(held[j], held[middle as int], new);
                }
            }
            low = middle + 1;
        }
    }
    low
}

/// Puts entries with distinct paths in order: heavier first, and among
/// entries of one weight by path. The result holds the same entries.
pub fn sort_entries(entries: Vec<(String, u64)>) -> (sorted: Vec<(String, u64)>)
    requires
        distinct_paths(entries_view(entries@)),
    ensures
        ordered(entries_view(sorted@)),
        sorted@.len() == entries@.len(),
        forall|e: (Seq<char>, nat)|
            entries_view(sorted@).contains(e) <==> entries_view(entries@).contains(e),
{
    let ghost all = entries_view(entries@);
    let mut rest = entries;
    let mut sorted: Vec<(String, u64)> = Vec::new();
    while rest.len() > 0
        invariant
            ordered(entries_view(sorted@)),
            distinct_paths(entries_view(rest@) + entries_view(sorted@)),
            rest@.len() + sorted@.len() == all.len(),
            forall|e: (Seq<char>, nat)|
                all.contains(e) <==> entries_view(rest@).contains(e) || entries_view(
                    sorted@,
                ).contains(e),
        decreases rest.len(),
    {
        let ghost rest_before = entries_view(rest@);
        let ghost sorted_before = entries_view(sorted@);
        let entry = rest.pop().unwrap();
        let ghost new = (entry.0@, entry.1 as nat);
        proof {
            assert(entries_view(rest@) =~= rest_before.drop_last());
            assert(new == rest_before.last());
            assert forall|j: int| 0 <= j < sorted.len() implies (#[trigger] sorted@[j]).0@
                != entry.0@ by {
                let both = rest_before + sorted_before;
                assert(both[rest_before.len() - 1] == new);
                assert(both[rest_before.len() + j] == sorted_before[j]);
            }
        }
        let at = place_of(&sorted, &entry);
        sorted.insert(at, entry);
        proof {
            let sorted_after = entries_view(sorted@);
            assert(sorted_after =~= sorted_before.insert(at as int, new));
            assert forall|i: int, j: int| 0 <= i < j < sorted_after.len() implies entry_before(
                #[trigger] sorted_after[i],
                #[trigger] sorted_after[j],
            ) by {
                if i < at && j > at {
                    lemma_entry_before_transitive(sorted_before[i], new, sorted_before[j - 1]);
                }
            }
            let both_before = rest_before + sorted_before;
            let both_after = entries_view(rest@) + sorted_after;
            assert forall|i: int, j: int| 0 <= i < j < both_after.len() implies (
            #[trigger] both_after[i]).0 != (#[trigger] both_after[j]).0 by {
                let n = rest@.len() as int;
                let from = |k: int|
                    if k < n {
                        k
                    } else if k < n + at {
                        k + 1
                    } else if k == n + at {
                        n
                    } else {
                        k
                    };
                assert(both_after[i] == both_before[from(i)]);
                assert(both_after[j] == both_before[from(j)]);
                if from(i) < from(j) {
                    assert(both_before[from(i)].0 != both_before[from(j)].0);
                } else {
                    assert(both_before[from(j)].0 != both_before[from(i)].0);
                }
            }
            assert forall|e: (Seq<char>, nat)|
                all.contains(e) <==> entries_view(rest@).contains(e) || sorted_after.contains(
                    e,
                ) by {
                if rest_before.contains(e) {
                    let k = choose|k: int| 0 <= k < rest_before.len() && rest_before[k] == e;
                    if k < rest_before.len() - 1 {
                        assert(entries_view(rest@)[k] == e);
                    } else {
                        assert(sorted_after[at as int] == e);
                    }
                }
                if sorted_before.contains(e) {
                    let k = choose|k: int| 0 <= k < sorted_before.len() && sorted_before[k] == e;
                    if k < at {
                        assert(sorted_after[k] == e);
                    } else {
                        assert(sorted_after[k + 1] == e);
                    }
                }
                if entries_view(rest@).contains(e) {
                    let k = choose|k: int|
                        0 <= k < entries_view(rest@).len() && entries_view(rest@)[k] == e;
                    assert(rest_before[k] == e);
                }
                if sorted_after.contains(e) {
                    let k = choose|k: int| 0 <= k < sorted_after.len() && sorted_after[k] == e;
                    if k < at {
                        assert(sorted_before[k] == e);
                    } else if k == at {
                        assert(rest_before[rest_before.len() - 1] == e);
                    } else {
                        assert(sorted_before[k - 1] == e);
                    }
                }
            }
        }
    }
    proof {
        assert(entries_view(rest@) + entries_view(sorted@) =~= entries_view(sorted@));
        assert forall|e: (Seq<char>, nat)|
            entries_view(sorted@).contains(e) <==> all.contains(e) by {
            if entries_view(rest@).contains(e) {
                let k = choose|k: int|
                    0 <= k < entries_view(rest@).len() && entries_view(rest@)[k] == e;
            }
        }
    }
    sorted
}

} // verus!
