//! The frontier of a shortest-path query: a binary min-heap of
//! `(tentative distance, node)` entries.
//!
//! Entries are ordered by distance first and by node second, so among entries
//! of equal distance the one with the lower node leaves first.

use vstd::multiset::Multiset;
use vstd::prelude::*;

verus! {

/// A tentative distance together with the node it was computed for.
pub type Entry = (u128, usize);

/// The order in which entries leave the frontier: by distance, then by node.
pub open spec fn entry_le(a: Entry, b: Entry) -> bool {
    a.0 < b.0 || (a.0 == b.0 && a.1 <= b.1)
}

/// `least` is an entry of `entries`, and no entry of `entries` comes before it.
pub open spec fn is_least(entries: Multiset<Entry>, least: Entry) -> bool {
    &&& entries.contains(least)
    &&& forall|other: Entry| #[trigger] entries.contains(other) ==> entry_le(least, other)
}

/// The slot above slot `i` in the implicit binary tree.
pub open spec fn parent(i: int) -> int {
    (i - 1) / 2
}

/// Every slot other than the root holds an entry that does not come before
/// the entry of its parent slot.
pub open spec fn heap_ordered(items: Seq<Entry>) -> bool {
    forall|i: int| 0 < i < items.len() ==> entry_le(#[trigger] items[parent(i)], items[i])
}

/// The heap order holds everywhere except possibly between slot `hole` and its
/// parent, and the children of `hole` respect its parent.
spec fn ordered_above(items: Seq<Entry>, hole: int) -> bool {
    &&& forall|i: int|
        0 < i < items.len() && i != hole ==> entry_le(#[trigger] items[parent(i)], items[i])
    &&& forall|i: int|
        0 < hole && 0 < i < items.len() && parent(i) == hole ==> entry_le(
            items[parent(hole)],
            #[trigger] items[i],
        )
}

/// The heap order holds everywhere except possibly between slot `hole` and its
/// children, and the children of `hole` respect its parent.
spec fn ordered_below(items: Seq<Entry>, hole: int) -> bool {
    &&& forall|i: int|
        0 < i < items.len() && parent(i) != hole ==> entry_le(#[trigger] items[parent(i)], items[i])
    &&& forall|i: int|
        0 < hole && 0 < i < items.len() && parent(i) == hole ==> entry_le(
            items[parent(hole)],
            #[trigger] items[i],
        )
}

/// `items` with the entries of slots `i` and `j` exchanged.
spec fn exchanged(items: Seq<Entry>, i: int, j: int) -> Seq<Entry> {
    items.update(i, items[j]).update(j, items[i])
}

/// Overwriting one slot removes the old entry from the contents and inserts the new one.
proof fn lemma_update_contents(items: Seq<Entry>, i: int, entry: Entry)
    requires
        0 <= i < items.len(),
    ensures
        items.update(i, entry).to_multiset() == items.to_multiset().remove(items[i]).insert(entry),
{
    broadcast use vstd::seq_lib::group_to_multiset_ensures;

    let updated = items.update(i, entry);
    assert(updated.remove(i) =~= items.remove(i));
    assert(updated.remove(i).to_multiset() == updated.to_multiset().remove(entry));
    assert(items.remove(i).to_multiset() == items.to_multiset().remove(items[i]));
    assert(updated.contains(entry)) by {
        assert(updated[i] == entry);
    }
    assert(updated.to_multiset().count(entry) > 0);
    assert(updated.to_multiset().remove(entry).insert(entry) =~= updated.to_multiset());
}

/// Exchanging two slots leaves the contents as they were.
proof fn lemma_exchange_contents(items: Seq<Entry>, i: int, j: int)
    requires
        0 <= i < items.len(),
        0 <= j < items.len(),
    ensures
        exchanged(items, i, j).to_multiset() == items.to_multiset(),
{
    broadcast use vstd::seq_lib::group_to_multiset_ensures;

    let half = items.update(i, items[j]);
    lemma_update_contents(items, i, items[j]);
    lemma_update_contents(half, j, items[i]);
    assert(items.contains(items[i]));
    assert(items.contains(items[j]));
    assert(items.to_multiset().count(items[i]) > 0);
    assert(items.to_multiset().count(items[j]) > 0);
    if i == j {
        assert(exchanged(items, i, j) =~= items);
    } else {
        assert(half[j] == items[j]);
        assert(items.to_multiset().remove(items[i]).insert(items[j]).remove(items[j]).insert(
            items[i],
        ) =~= items.to_multiset());
    }
}

/// In a heap-ordered sequence no entry comes before the root.
proof fn lemma_root_is_first(items: Seq<Entry>, i: int)
    requires
        heap_ordered(items),
        0 <= i < items.len(),
    ensures
        entry_le(items[0], items[i]),
    decreases i,
{
    if i > 0 {
        lemma_root_is_first(items, parent(i));
        assert(entry_le(items[parent(i)], items[i]));
    }
}

/// The root of a non-empty heap-ordered sequence is the least of its contents.
proof fn lemma_root_is_least(items: Seq<Entry>)
    requires
        heap_ordered(items),
        items.len() > 0,
    ensures
        is_least(items.to_multiset(), items[0]),
{
    broadcast use vstd::seq_lib::group_to_multiset_ensures;

    assert(items.contains(items[0]));
    assert forall|other: Entry| #[trigger]
        items.to_multiset().contains(other) implies entry_le(items[0], other) by {
        assert(items.contains(other));
        let i = choose|i: int| 0 <= i < items.len() && items[i] == other;
        lemma_root_is_first(items, i);
    }
}

/// Whether `a` leaves the frontier strictly before `b`.
fn comes_before(a: Entry, b: Entry) -> (before: bool)
    ensures
        before == !entry_le(b, a),
{
    a.0 < b.0 || (a.0 == b.0 && a.1 < b.1)
}

/// Exchanges the entries of slots `i` and `j`.
fn exchange(items: &mut Vec<Entry>, i: usize, j: usize)
    requires
        i < old(items)@.len(),
        j < old(items)@.len(),
    ensures
        final(items)@ == exchanged(old(items)@, i as int, j as int),
        final(items)@.to_multiset() == old(items)@.to_multiset(),
{
    proof {
        lemma_exchange_contents(items@, i as int, j as int);
    }
    let first = items[i];
    let second = items[j];
    items[i] = second;
    items[j] = first;
}

/// Moves the entry of slot `start` towards the root until its parent no
/// longer comes after it.
fn sift_up(items: &mut Vec<Entry>, start: usize)
    requires
        start < old(items)@.len(),
        ordered_above(old(items)@, start as int),
    ensures
        heap_ordered(final(items)@),
        final(items)@.to_multiset() == old(items)@.to_multiset(),
{
    let mut hole: usize = start;
    while hole > 0
        invariant
            hole < items@.len(),
            items@.len() == old(items)@.len(),
            items@.to_multiset() == old(items)@.to_multiset(),
            ordered_above(items@, hole as int),
        ensures
            heap_ordered(items@),
            items@.to_multiset() == old(items)@.to_multiset(),
        decreases hole,
    {
        let above: usize = (hole - 1) / 2;
        if !comes_before(items[hole], items[above]) {
            break;
        }
        let ghost before = items@;
        exchange(items, hole, above);
        proof {
            assert forall|i: int| 0 < i < items@.len() && i != above implies entry_le(
                #[trigger] items@[parent(i)],
                items@[i],
            ) by {
                if i == hole {
                } else if parent(i) == hole {
                    assert(entry_le(before[parent(hole as int)], before[i]));
                } else if parent(i) == above {
                    assert(entry_le(before[parent(i)], before[i]));
                } else {
                    assert(entry_le(before[parent(i)], before[i]));
                }
            }
            assert forall|i: int|
                0 < above && 0 < i < items@.len() && parent(i) == above implies entry_le(
                items@[parent(above as int)],
                #[trigger] items@[i],
            ) by {
                assert(entry_le(before[parent(above as int)], before[above as int]));
                if i != hole {
                    assert(entry_le(before[parent(i)], before[i]));
                }
            }
        }
        hole = above;
    }
}

/// Moves the entry of slot `start` away from the root until neither child
/// comes before it.
fn sift_down(items: &mut Vec<Entry>, start: usize)
    requires
        start < old(items)@.len(),
        ordered_below(old(items)@, start as int),
    ensures
        heap_ordered(final(items)@),
        final(items)@.to_multiset() == old(items)@.to_multiset(),
{
    let len: usize = items.len();
    let mut hole: usize = start;
    while hole < len / 2
        invariant
            hole < len,
            items@.len() == len,
            items@.to_multiset() == old(items)@.to_multiset(),
            ordered_below(items@, hole as int),
        ensures
            heap_ordered(items@),
            items@.to_multiset() == old(items)@.to_multiset(),
        decreases len - hole,
    {
        let left: usize = 2 * hole + 1;
        let right: usize = left + 1;
        let mut child: usize = left;
        if right < len && comes_before(items[right], items[left]) {
            child = right;
        }
        if !comes_before(items[child], items[hole]) {
            proof {
                assert forall|i: int| 0 < i < items@.len() implies entry_le(
                    #[trigger] items@[parent(i)],
                    items@[i],
                ) by {
                    if parent(i) == hole {
                        assert(i == left || i == right);
                    }
                }
            }
            break;
        }
        let ghost before = items@;
        exchange(items, hole, child);
        proof {
            assert forall|i: int| 0 < i < items@.len() && parent(i) != child implies entry_le(
                #[trigger] items@[parent(i)],
                items@[i],
            ) by {
                if i == hole {
                    assert(entry_le(before[parent(hole as int)], before[child as int]));
                } else if parent(i) == hole {
                    assert(i == left || i == right);
                } else {
                    assert(entry_le(before[parent(i)], before[i]));
                }
            }
            assert forall|i: int|
                0 < i < items@.len() && parent(i) == child implies entry_le(
                items@[parent(child as int)],
                #[trigger] items@[i],
            ) by {
                assert(entry_le(before[parent(i)], before[i]));
            }
        }
        hole = child;
    }
    proof {
        if hole >= len / 2 {
            assert forall|i: int| 0 < i < items@.len() implies entry_le(
                #[trigger] items@[parent(i)],
                items@[i],
            ) by {
                assert(parent(i) != hole);
            }
        }
    }
}

/// A min-priority queue of entries; equal entries may be held more than once.
#[derive(Debug)]
pub struct Frontier {
    items: Vec<Entry>,
}

impl View for Frontier {
    type V = Multiset<Entry>;

    closed spec fn view(&self) -> Multiset<Entry> {
        self.items@.to_multiset()
    }
}

impl Frontier {
    #[verifier::type_invariant]
    spec fn well_formed(&self) -> bool {
        heap_ordered(self.items@)
    }

    /// A frontier that holds nothing.
    pub fn new() -> (frontier: Frontier)
        ensures
            frontier@ == Multiset::<Entry>::empty(),
    {
        let frontier = Frontier { items: Vec::new() };
        assert(frontier.items@.to_multiset() =~= Multiset::<Entry>::empty()) by {
            broadcast use vstd::seq_lib::group_to_multiset_ensures;

        }
        frontier
    }

    /// The number of entries held, counting repeats.
    pub fn len(&self) -> (n: usize)
        ensures
            n == self@.len(),
    {
        proof {
            broadcast use vstd::seq_lib::group_to_multiset_ensures;

        }
        self.items.len()
    }

    /// Whether nothing is held.
    pub fn is_empty(&self) -> (empty: bool)
        ensures
            empty == (self@.len() == 0),
    {
        self.len() == 0
    }

    /// Adds one entry.
    pub fn push(&mut self, entry: Entry)
        ensures
            final(self)@ == old(self)@.insert(entry),
    {
        proof {
            use_type_invariant(&*self);
            broadcast use vstd::seq_lib::group_to_multiset_ensures;

        }
        let mut items: Vec<Entry> = Vec::new();
        std::mem::swap(&mut self.items, &mut items);
        items.push(entry);
        let last: usize = items.len() - 1;
        proof {
            let before = old(self).items@;
            assert(items@ == before.push(entry));
            assert forall|i: int| 0 < i < items@.len() && i != last implies entry_le(
                #[trigger] items@[parent(i)],
                items@[i],
            ) by {
                assert(entry_le(before[parent(i)], before[i]));
            }
        }
        sift_up(&mut items, last);
        self.items = items;
    }

    /// Removes and returns the least entry, or returns `None` when nothing is held.
    pub fn pop(&mut self) -> (popped: Option<Entry>)
        ensures
            match popped {
                Some(least) => is_least(old(self)@, least) && final(self)@ == old(self)@.remove(
                    least,
                ),
                None => old(self)@.len() == 0 && final(self)@ == old(self)@,
            },
    {
        proof {
            use_type_invariant(&*self);
            broadcast use vstd::seq_lib::group_to_multiset_ensures;

        }
        let len: usize = self.items.len();
        if len == 0 {
            return None;
        }
        let mut items: Vec<Entry> = Vec::new();
        std::mem::swap(&mut self.items, &mut items);
        let ghost before = items@;
        proof {
            lemma_root_is_least(before);
        }
        exchange(&mut items, 0, len - 1);
        let least = items.pop().unwrap();
        proof {
            let swapped = exchanged(before, 0, len - 1);
            assert(least == before[0]);
            assert(items@ =~= swapped.remove(len - 1));
            assert(swapped.to_multiset() == before.to_multiset());
            assert(items@.to_multiset() == before.to_multiset().remove(least));
        }
        if len > 1 {
            proof {
                assert forall|i: int| 0 < i < items@.len() && parent(i) != 0 implies entry_le(
                    #[trigger] items@[parent(i)],
                    items@[i],
                ) by {
                    assert(entry_le(before[parent(i)], before[i]));
                }
            }
            sift_down(&mut items, 0);
        }
        self.items = items;
        Some(least)
    }
}

} // verus!
