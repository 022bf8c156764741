//! A min-priority queue of search entries.

use vstd::multiset::Multiset;
use vstd::prelude::*;

verus! {

broadcast use {vstd::seq_lib::group_to_multiset_ensures, vstd::multiset::group_multiset_axioms};

/// One entry of the search frontier: a node and the cost of one way to it.
#[derive(Clone, Copy, Debug, PartialEq, Eq, Structural)]
pub struct State {
    pub cost: u64,
    pub node: i64,
}

/// The order in which entries leave the queue: by ascending cost, and, among
/// entries of equal cost, by ascending node id.
pub open spec fn goes_before(a: State, b: State) -> bool {
    a.cost < b.cost || (a.cost == b.cost && a.node <= b.node)
}

/// `e` goes before every entry of `m`.
pub open spec fn is_least(m: Multiset<State>, e: State) -> bool {
    forall|x: State| m.contains(x) ==> goes_before(e, x)
}

/// Two least entries of one collection are the same entry.
pub proof fn lemma_least_is_unique(m: Multiset<State>, a: State, b: State)
    requires
        m.contains(a),
        m.contains(b),
        is_least(m, a),
        is_least(m, b),
    ensures
        a == b,
{
}

/// Whether `a` leaves the queue no later than `b`.
pub fn precedes(a: &State, b: &State) -> (r: bool)
    ensures
        r == goes_before(*a, *b),
{
    a.cost < b.cost || (a.cost == b.cost && a.node <= b.node)
}

/// Every entry but the first goes after its parent, the entry at half its
/// position.
spec fn heap_ordered(s: Seq<State>) -> bool {
    forall|k: int| 1 <= k < s.len() ==> goes_before(s[(k - 1) / 2], #[trigger] s[k])
}

/// The heap order holds but between position `at` and its parent, and the
/// children of `at` go after its parent.
spec fn ordered_above(s: Seq<State>, at: int) -> bool {
    &&& forall|k: int| 1 <= k < s.len() && k != at ==> goes_before(s[(k - 1) / 2], #[trigger] s[k])
    &&& forall|k: int|
        1 <= k < s.len() && (k - 1) / 2 == at && at > 0 ==> goes_before(
            s[(at - 1) / 2],
            #[trigger] s[k],
        )
}

/// The heap order holds but between position `at` and its children, and
/// the children of `at` go after its parent.
spec fn ordered_below(s: Seq<State>, at: int) -> bool {
    &&& forall|k: int|
        1 <= k < s.len() && (k - 1) / 2 != at ==> goes_before(s[(k - 1) / 2], #[trigger] s[k])
    &&& forall|k: int|
        1 <= k < s.len() && (k - 1) / 2 == at && at > 0 ==> goes_before(
            s[(at - 1) / 2],
            #[trigger] s[k],
        )
}

/// In a heap the first entry goes before every entry.
proof fn lemma_root_is_least(s: Seq<State>, i: int)
    requires
        heap_ordered(s),
        0 <= i < s.len(),
    ensures
        goes_before(s[0], s[i]),
    decreases i,
{
    if i > 0 {
        lemma_root_is_least(s, (i - 1) / 2);
        assert(goes_before(s[(i - 1) / 2], s[i]));
    }
}

/// Exchanging two entries keeps the collection.
proof fn lemma_exchange_keeps_entries(s: Seq<State>, i: int, j: int)
    requires
        0 <= i < s.len(),
        0 <= j < s.len(),
    ensures
        s.update(i, s[j]).update(j, s[i]).to_multiset() == s.to_multiset(),
{
    vstd::seq_lib::to_multiset_update(s, i, s[j]);
    vstd::seq_lib::to_multiset_update(s.update(i, s[j]), j, s[i]);
    assert(s.to_multiset().count(s[i]) > 0) by {
        assert(s.contains(s[i]));
    }
    assert(s.to_multiset().count(s[j]) > 0) by {
        assert(s.contains(s[j]));
    }
    assert(s.update(i, s[j]).update(j, s[i]).to_multiset() =~= s.to_multiset());
}

/// Taking the first entry out by moving the last into its place takes one
/// copy of it out of the collection.
proof fn lemma_swap_remove_first(s: Seq<State>)
    requires
        s.len() > 0,
    ensures
        s.update(0, s.last()).drop_last().to_multiset() == s.to_multiset().remove(s[0]),
{
    let t = s.update(0, s.last());
    vstd::seq_lib::to_multiset_update(s, 0, s.last());
    assert(t.drop_last() =~= t.remove(t.len() - 1));
    assert(s.to_multiset().count(s.last()) > 0) by {
        assert(s.contains(s.last()));
    }
    assert(s.to_multiset().count(s[0]) > 0) by {
        assert(s.contains(s[0]));
    }
    assert(t.drop_last().to_multiset() =~= s.to_multiset().remove(s[0]));
}

/// Exchanges the entries at `i` and `j`.
fn exchange(items: &mut Vec<State>, i: usize, j: usize)
    requires
        i < old(items).len(),
        j < old(items).len(),
    ensures
        final(items)@ == old(items)@.update(i as int, old(items)@[j as int]).update(
            j as int,
            old(items)@[i as int],
        ),
        final(items)@.to_multiset() == old(items)@.to_multiset(),
{
    let a = items[i];
    let b = items[j];
    proof {
        lemma_exchange_keeps_entries(items@, i as int, j as int);
    }
    items.set(i, b);
    items.set(j, a);
}

/// Moves the entry at `start` up until it goes after its parent.
fn sift_up(items: &mut Vec<State>, start: usize)
    requires
        start < old(items).len(),
        ordered_above(old(items)@, start as int),
    ensures
        heap_ordered(final(items)@),
        final(items)@.to_multiset() == old(items)@.to_multiset(),
{
    let mut i: usize = start;
    while i > 0
        invariant
            i < items.len(),
            ordered_above(items@, i as int),
            items@.to_multiset() == old(items)@.to_multiset(),
        ensures
            heap_ordered(items@),
            items@.to_multiset() == old(items)@.to_multiset(),
        decreases i,
    {
        let parent: usize = (i - 1) / 2;
        if precedes(&items[parent], &items[i]) {
            break;
        }
        let ghost before = items@;
        exchange(items, parent, i);
        proof {
            let after = items@;
            assert forall|k: int| 1 <= k < after.len() && k != parent implies goes_before(
                after[(k - 1) / 2],
                #[trigger] after[k],
            ) by {
                if k != i {
                    assert(goes_before(before[(k - 1) / 2], before[k]));
                }
            }
            assert forall|k: int|
                1 <= k < after.len() && (k - 1) / 2 == parent && parent > 0 implies goes_before(
                after[(parent - 1) / 2],
                #[trigger] after[k],
            ) by {
                assert(goes_before(before[(parent - 1) / 2], before[parent as int]));
                if k != i {
                    assert(goes_before(before[(k - 1) / 2], before[k]));
                }
            }
        }
        i = parent;
    }
}

/// Moves the first entry down until it goes before its children.
fn sift_down(items: &mut Vec<State>)
    requires
        old(items).len() > 0,
        ordered_below(old(items)@, 0),
    ensures
        heap_ordered(final(items)@),
        final(items)@.to_multiset() == old(items)@.to_multiset(),
{
    let len: usize = items.len();
    let mut i: usize = 0;
    while i < len / 2
        invariant
            len == items.len(),
            i < len,
            ordered_below(items@, i as int),
            items@.to_multiset() == old(items)@.to_multiset(),
        ensures
            heap_ordered(items@),
            items@.to_multiset() == old(items)@.to_multiset(),
        decreases len - i,
    {
        let left: usize = 2 * i + 1;
        let right: usize = left + 1;
        let child: usize = if right < len && !precedes(&items[left], &items[right]) {
            right
        } else {
            left
        };
        if precedes(&items[i], &items[child]) {
            proof {
                let s = items@;
                assert forall|k: int| 1 <= k < s.len() implies goes_before(
                    s[(k - 1) / 2],
                    #[trigger] s[k],
                ) by {
                    if (k - 1) / 2 == i {
                        assert(k == left || k == right);
                    }
                }
            }
            break;
        }
        let ghost before = items@;
        exchange(items, i, child);
        proof {
            let after = items@;
            assert forall|k: int|
                1 <= k < after.len() && (k - 1) / 2 != child implies goes_before(
                after[(k - 1) / 2],
                #[trigger] after[k],
            ) by {
                if (k - 1) / 2 == i {
                    assert(k == left || k == right);
                } else if k == i {
                    assert(goes_before(before[(i - 1) / 2], before[child as int]));
                } else {
                    assert(goes_before(before[(k - 1) / 2], before[k]));
                }
            }
            assert forall|k: int|
                1 <= k < after.len() && (k - 1) / 2 == child && child > 0 implies goes_before(
                after[(child - 1) / 2],
                #[trigger] after[k],
            ) by {
                assert(goes_before(before[(k - 1) / 2], before[k]));
            }
        }
        i = child;
    }
    proof {
        if i >= len / 2 {
            let s = items@;
            assert forall|k: int| 1 <= k < s.len() implies goes_before(
                s[(k - 1) / 2],
                #[trigger] s[k],
            ) by {
                assert((k - 1) / 2 != i);
            }
        }
    }
}

/// A min-priority queue, kept as a binary heap. Its view is the collection
/// of entries it holds.
pub struct MinQueue {
    items: Vec<State>,
}

impl View for MinQueue {
    type V = Multiset<State>;

    closed spec fn view(&self) -> Multiset<State> {
        self.items@.to_multiset()
    }
}

impl MinQueue {
    #[verifier::type_invariant]
    spec fn ordered(self) -> bool {
        heap_ordered(self.items@)
    }

    /// The empty queue.
    pub fn new() -> (q: MinQueue)
        ensures
            q@ == Multiset::<State>::empty(),
    {
        let q = MinQueue { items: Vec::new() };
        assert(q.items@.to_multiset() =~= Multiset::<State>::empty());
        q
    }

    /// The number of entries held.
    pub fn len(&self) -> (n: usize)
        ensures
            n == self@.len(),
    {
        self.items.len()
    }

    /// Whether the queue holds no entry.
    pub fn is_empty(&self) -> (r: bool)
        ensures
            r == (self@.len() == 0),
    {
        self.items.len() == 0
    }

    /// Adds one entry.
    pub fn push(&mut self, entry: State)
        ensures
            final(self)@ == old(self)@.insert(entry),
    {
        proof {
            use_type_invariant(&*self);
        }
        let mut items: Vec<State> = Vec::new();
        std::mem::swap(&mut items, &mut self.items);
        let ghost before = items@;
        items.push(entry);
        proof {
            let s = items@;
            assert forall|k: int| 1 <= k < s.len() && k != s.len() - 1 implies goes_before(
                s[(k - 1) / 2],
                #[trigger] s[k],
            ) by {
                assert(goes_before(before[(k - 1) / 2], before[k]));
            }
        }
        let last: usize = items.len() - 1;
        sift_up(&mut items, last);
        self.items = items;
    }

    /// Removes and returns the entry that goes before all others, or `None`
    /// when the queue is empty.
    pub fn pop(&mut self) -> (r: Option<State>)
        ensures
            match r {
                Some(e) => old(self)@.contains(e) && is_least(old(self)@, e) && final(self)@ == old(
                    self,
                )@.remove(e),
                None => old(self)@.len() == 0 && final(self)@ == old(self)@,
            },
    {
        proof {
            use_type_invariant(&*self);
        }
        let mut items: Vec<State> = Vec::new();
        std::mem::swap(&mut items, &mut self.items);
        if items.len() == 0 {
            assert(items@ =~= self.items@);
            return None;
        }
        let ghost before = items@;
        proof {
            assert(before.contains(before[0]));
            assert forall|x: State| before.to_multiset().contains(x) implies goes_before(
                before[0],
                x,
            ) by {
                assert(before.contains(x));
                let k = choose|k: int| 0 <= k < before.len() && before[k] == x;
                lemma_root_is_least(before, k);
            }
            lemma_swap_remove_first(before);
        }
        let e = items.swap_remove(0);
        if items.len() > 0 {
            proof {
                let s = items@;
                assert forall|k: int| 1 <= k < s.len() && (k - 1) / 2 != 0 implies goes_before(
                    s[(k - 1) / 2],
                    #[trigger] s[k],
                ) by {
                    assert(goes_before(before[(k - 1) / 2], before[k]));
                }
            }
            sift_down(&mut items);
        }
        self.items = items;
        Some(e)
    }
}

} // verus!
