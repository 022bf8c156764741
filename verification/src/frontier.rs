//! The bookkeeping of one shortest-path search: best known costs,
//! predecessor links and the queue of entries still to be looked at.
//!
//! The rules are stated on a mathematical snapshot, [`FrontierView`], as
//! three transitions ([`initial`], [`after_pop`], [`after_relax`]) and one
//! invariant ([`consistent`]) that every transition keeps. [`Frontier`] is
//! the executable state whose snapshot moves by exactly these transitions.

use crate::path::{
    lemma_walk_back_fuel, lemma_walk_back_no_duplicates, lemma_walk_back_shape, path_between,
    reconstruct_path, walk_back,
};
use crate::queue::{goes_before, is_least, MinQueue, State};
use std::collections::HashMap;
use vstd::multiset::Multiset;
use vstd::prelude::*;

verus! {

broadcast use {vstd::std_specs::hash::group_hash_axioms, vstd::multiset::group_multiset_axioms};

/// Snapshot of a search.
#[verifier::ext_equal]
pub struct FrontierView {
    /// The node the search started from.
    pub source: i64,
    /// Best known cost of each node seen so far.
    pub dist: Map<i64, u64>,
    /// The node from which each seen node got its best known cost.
    pub pred: Map<i64, i64>,
    /// Entries waiting to be popped.
    pub queue: Multiset<State>,
    /// Nodes that were popped at their best known cost.
    pub settled: Set<i64>,
    /// Weight of the link from its predecessor, for each node that has one.
    pub hop: Map<i64, u64>,
    /// Number of links between the source and each seen node.
    pub depth: Map<i64, nat>,
    /// Cost of the entry popped last (zero before the first pop).
    pub last_cost: u64,
    /// The entry whose node is being expanded, if any.
    pub current: Option<State>,
}

/// The snapshot of a search that has just begun at `source`.
pub open spec fn initial(source: i64) -> FrontierView {
    FrontierView {
        source,
        dist: Map::<i64, u64>::empty().insert(source, 0),
        pred: Map::<i64, i64>::empty(),
        queue: Multiset::<State>::empty().insert(State { cost: 0, node: source }),
        settled: Set::<i64>::empty(),
        hop: Map::<i64, u64>::empty(),
        depth: Map::<i64, nat>::empty().insert(source, 0),
        last_cost: 0,
        current: None,
    }
}

/// An entry is stale when a cheaper way to its node was recorded after it
/// was queued.
pub open spec fn is_stale(v: FrontierView, e: State) -> bool {
    v.dist.contains_key(e.node) && e.cost > v.dist[e.node]
}

/// The snapshot after entry `e` left the queue: a stale entry is dropped, any
/// other settles its node, which becomes the node under expansion.
pub open spec fn after_pop(v: FrontierView, e: State) -> FrontierView {
    if is_stale(v, e) {
        FrontierView { queue: v.queue.remove(e), last_cost: e.cost, current: None, ..v }
    } else {
        FrontierView {
            queue: v.queue.remove(e),
            last_cost: e.cost,
            current: Some(e),
            settled: v.settled.insert(e.node),
            ..v
        }
    }
}

/// Whether a link of weight `weight` from the node under expansion improves
/// on what is known of `to`: the candidate cost is representable, and `to`
/// is unseen or was only known at a strictly higher cost.
pub open spec fn improves(v: FrontierView, to: i64, weight: u64) -> bool {
    &&& v.current is Some
    &&& v.current->Some_0.cost + weight <= u64::MAX
    &&& (!v.dist.contains_key(to) || v.current->Some_0.cost + weight < v.dist[to])
}

/// The snapshot after the link from the node under expansion to `to` was
/// considered.
pub open spec fn after_relax(v: FrontierView, to: i64, weight: u64) -> FrontierView {
    if improves(v, to, weight) {
        let from = v.current->Some_0;
        let cost = (from.cost + weight) as u64;
        FrontierView {
            dist: v.dist.insert(to, cost),
            pred: v.pred.insert(to, from.node),
            queue: v.queue.insert(State { cost, node: to }),
            hop: v.hop.insert(to, weight),
            depth: v.depth.insert(to, v.depth[from.node] + 1),
            ..v
        }
    } else {
        v
    }
}

/// What holds of every snapshot that a search can reach.
pub open spec fn consistent(v: FrontierView) -> bool {
    &&& v.dist.dom().finite()
    &&& v.pred.dom().finite()
    &&& v.dist.contains_key(v.source)
    &&& v.dist[v.source] == 0
    &&& v.depth.contains_key(v.source)
    &&& v.depth[v.source] == 0
    &&& forall|x: i64| #[trigger]
        v.pred.contains_key(x) <==> v.dist.contains_key(x) && x != v.source
    &&& forall|x: i64| #[trigger] v.dist.contains_key(x) ==> v.depth.contains_key(x)
    &&& forall|e: State| #[trigger]
        v.queue.count(e) > 0 ==> v.dist.contains_key(e.node) && v.dist[e.node] <= e.cost
            && v.last_cost <= e.cost
    &&& forall|e: State| #[trigger] v.queue.count(e) <= 1
    &&& forall|e: State| #[trigger]
        v.queue.count(e) > 0 && v.settled.contains(e.node) ==> v.dist[e.node] < e.cost
    &&& forall|s: i64| #[trigger]
        v.settled.contains(s) ==> v.dist.contains_key(s) && v.dist[s] <= v.last_cost
    &&& forall|x: i64| #[trigger]
        v.pred.contains_key(x) ==> v.settled.contains(v.pred[x]) && v.hop.contains_key(x)
            && v.dist[v.pred[x]] + v.hop[x] == v.dist[x] && v.depth[x] == v.depth[v.pred[x]] + 1
    &&& forall|x: i64| #[trigger]
        v.dist.contains_key(x) && !v.settled.contains(x) ==> v.queue.count(
            State { cost: v.dist[x], node: x },
        ) > 0
    &&& match v.current {
        Some(c) => v.settled.contains(c.node) && v.dist[c.node] == c.cost && c.cost
            == v.last_cost,
        None => true,
    }
}

/// A search starts in a consistent snapshot.
pub proof fn lemma_initial_consistent(source: i64)
    ensures
        consistent(initial(source)),
{
    let v = initial(source);
    assert(v.pred.dom() =~= Set::<i64>::empty());
    assert(v.dist.dom() =~= Set::<i64>::empty().insert(source));
}

/// Popping the least entry keeps the snapshot consistent, and the popped
/// cost is never below the cost popped before.
pub proof fn lemma_pop_consistent(v: FrontierView, e: State)
    requires
        consistent(v),
        v.queue.contains(e),
        is_least(v.queue, e),
    ensures
        consistent(after_pop(v, e)),
        v.last_cost <= e.cost,
        !is_stale(v, e) ==> !v.settled.contains(e.node) && v.dist[e.node] == e.cost,
{
    let w = after_pop(v, e);
    assert(v.queue.count(e) > 0);
    assert forall|x: State| #[trigger] w.queue.count(x) > 0 implies v.queue.count(x) > 0
        && goes_before(e, x) by {
        assert(v.queue.contains(x));
    }
    assert forall|x: State| #[trigger] w.queue.count(x) <= 1 by {
        assert(v.queue.count(x) <= 1);
    }
    assert(w.queue.count(e) == 0);
    assert forall|x: i64| #[trigger]
        w.dist.contains_key(x) && !w.settled.contains(x) implies w.queue.count(
        State { cost: w.dist[x], node: x },
    ) > 0 by {
        let entry = State { cost: v.dist[x], node: x };
        assert(v.queue.count(entry) > 0);
        if entry == e {
            assert(!is_stale(v, e));
        }
    }
    assert forall|s: i64| #[trigger] w.settled.contains(s) implies w.dist.contains_key(s)
        && w.dist[s] <= w.last_cost by {
        if v.settled.contains(s) {
        }
    }
    assert forall|x: State| #[trigger]
        w.queue.count(x) > 0 && w.settled.contains(x.node) implies w.dist[x.node] < x.cost by {
        if !v.settled.contains(x.node) {
            assert(x.node == e.node);
            assert(x != e);
        }
    }
}

/// Considering a link out of the node under expansion keeps the snapshot
/// consistent.
pub proof fn lemma_relax_consistent(v: FrontierView, to: i64, weight: u64)
    requires
        consistent(v),
        v.current is Some,
    ensures
        consistent(after_relax(v, to, weight)),
{
    if improves(v, to, weight) {
        let w = after_relax(v, to, weight);
        let from = v.current->Some_0;
        let cost = (from.cost + weight) as u64;
        let pushed = State { cost, node: to };
        assert(!v.settled.contains(to));
        assert(to != v.source);
        assert(to != from.node);
        assert(w.dist.dom() =~= v.dist.dom().insert(to));
        assert(w.pred.dom() =~= v.pred.dom().insert(to));
        assert(v.queue.count(pushed) == 0) by {
            if v.queue.count(pushed) > 0 {
                assert(v.dist[to] <= cost);
            }
        }
        assert forall|x: i64| #[trigger] w.pred.contains_key(x) implies w.settled.contains(
            w.pred[x],
        ) && w.hop.contains_key(x) && w.dist[w.pred[x]] + w.hop[x] == w.dist[x] && w.depth[x]
            == w.depth[w.pred[x]] + 1 by {
            if x != to {
                assert(v.pred.contains_key(x));
                assert(v.settled.contains(v.pred[x]));
            }
        }
        assert forall|x: i64| #[trigger]
            w.dist.contains_key(x) && !w.settled.contains(x) implies w.queue.count(
            State { cost: w.dist[x], node: x },
        ) > 0 by {
            if x != to {
                assert(v.queue.count(State { cost: v.dist[x], node: x }) > 0);
            }
        }
        assert forall|x: State| #[trigger] w.queue.count(x) > 0 implies w.dist.contains_key(
            x.node,
        ) && w.dist[x.node] <= x.cost && w.last_cost <= x.cost by {
            if x != pushed {
                assert(v.queue.count(x) > 0);
            }
        }
        assert forall|x: State| #[trigger] w.queue.count(x) <= 1 by {
            assert(v.queue.count(x) <= 1);
        }
        assert forall|x: State| #[trigger]
            w.queue.count(x) > 0 && w.settled.contains(x.node) implies w.dist[x.node]
            < x.cost by {
            assert(v.queue.count(x) > 0);
        }
        assert forall|x: i64| #[trigger] w.pred.contains_key(x) <==> w.dist.contains_key(x) && x
            != w.source by {
            if x != to {
                assert(v.pred.contains_key(x) <==> v.dist.contains_key(x) && x != v.source);
            }
        }
    }
}

/// A lower bound on what it costs to reach `x`: its recorded cost where that
/// is below `bound`, else `bound`.
pub open spec fn potential(v: FrontierView, bound: int, x: i64) -> int {
    if v.dist.contains_key(x) && v.dist[x] <= bound {
        v.dist[x] as int
    } else {
        bound
    }
}

/// Sum of the recorded link weights along `p`: one weight for each node
/// after the first.
pub open spec fn links_cost(hop: Map<i64, u64>, p: Seq<i64>) -> int
    decreases p.len(),
{
    if p.len() <= 1 {
        0
    } else {
        links_cost(hop, p.drop_last()) + hop[p.last()]
    }
}

/// From any seen node the predecessor links lead back to the source in as
/// many steps as the node's depth, and the weights along that walk add up to
/// the node's recorded cost.
pub proof fn lemma_recorded_walk(v: FrontierView, x: i64)
    requires
        consistent(v),
        v.dist.contains_key(x),
    ensures
        walk_back(v.pred, v.source, x, v.depth[x]) is Some,
        links_cost(v.hop, walk_back(v.pred, v.source, x, v.depth[x])->Some_0) == v.dist[x],
    decreases v.depth[x],
{
    if x != v.source {
        assert(v.pred.contains_key(x));
        let before = v.pred[x];
        assert(v.settled.contains(before));
        lemma_recorded_walk(v, before);
        let p = walk_back(v.pred, v.source, before, v.depth[before])->Some_0;
        assert(p.push(x).drop_last() =~= p);
    } else {
        assert(seq![v.source].len() == 1);
    }
}

/// The path recorded for a seen node: it leads from the source to the node,
/// visits no node twice, every node on it but the last is settled and is the
/// recorded predecessor of the next, and its link weights add up to the
/// node's recorded cost.
pub proof fn lemma_recorded_path(v: FrontierView, x: i64)
    requires
        consistent(v),
        v.dist.contains_key(x),
    ensures
        ({
            let p = path_between(v.pred, v.source, x);
            &&& p.len() >= 1
            &&& p[0] == v.source
            &&& p[p.len() - 1] == x
            &&& p.no_duplicates()
            &&& links_cost(v.hop, p) == v.dist[x]
            &&& forall|i: int|
                1 <= i < p.len() ==> v.pred.contains_key(#[trigger] p[i]) && v.pred[p[i]] == p[i
                    - 1] && v.settled.contains(p[i - 1])
        }),
{
    lemma_recorded_walk(v, x);
    lemma_walk_back_fuel(v.pred, v.source, x, v.depth[x]);
    lemma_walk_back_shape(v.pred, v.source, x, v.depth[x]);
    lemma_walk_back_no_duplicates(v.pred, v.source, x, v.depth[x]);
    let p = path_between(v.pred, v.source, x);
    assert forall|i: int| 1 <= i < p.len() implies v.pred.contains_key(#[trigger] p[i])
        && v.pred[p[i]] == p[i - 1] && v.settled.contains(p[i - 1]) by {
        assert(p[i] != v.source && v.pred.contains_key(p[i]));
    }
}

/// The executable state of one search.
pub struct Frontier {
    source: i64,
    distances: HashMap<i64, u64>,
    predecessors: HashMap<i64, i64>,
    queue: MinQueue,
    last_cost: u64,
    current: Option<State>,
    settled: Ghost<Set<i64>>,
    hop: Ghost<Map<i64, u64>>,
    depth: Ghost<Map<i64, nat>>,
}

impl View for Frontier {
    type V = FrontierView;

    closed spec fn view(&self) -> FrontierView {
        FrontierView {
            source: self.source,
            dist: self.distances@,
            pred: self.predecessors@,
            queue: self.queue@,
            settled: self.settled@,
            hop: self.hop@,
            depth: self.depth@,
            last_cost: self.last_cost,
            current: self.current,
        }
    }
}

impl Frontier {
    /// The state is one that a search can reach.
    pub open spec fn wf(&self) -> bool {
        consistent(self@)
    }

    /// Begins a search at `source`: its cost is zero and it is the only
    /// queued entry.
    pub fn new(source: i64) -> (f: Frontier)
        ensures
            f.wf(),
            f@ == initial(source),
    {
        let mut distances: HashMap<i64, u64> = HashMap::new();
        distances.insert(source, 0);
        let mut queue = MinQueue::new();
        queue.push(State { cost: 0, node: source });
        let f = Frontier {
            source,
            distances,
            predecessors: HashMap::new(),
            queue,
            last_cost: 0,
            current: None,
            settled: Ghost(Set::<i64>::empty()),
            hop: Ghost(Map::<i64, u64>::empty()),
            depth: Ghost(Map::<i64, nat>::empty().insert(source, 0)),
        };
        proof {
            lemma_initial_consistent(source);
            assert(f@ =~= initial(source));
        }
        f
    }

    /// The node the search started from.
    pub fn source(&self) -> (s: i64)
        ensures
            s == self@.source,
    {
        self.source
    }

    /// The entry whose node is under expansion, if any.
    pub fn current(&self) -> (c: Option<State>)
        ensures
            c == self@.current,
    {
        self.current
    }

    /// The best known cost of `node`, or `None` for a node not seen yet.
    pub fn best_cost(&self, node: i64) -> (c: Option<u64>)
        ensures
            c == (if self@.dist.contains_key(node) {
                Some(self@.dist[node])
            } else {
                None
            }),
    {
        match self.distances.get(&node) {
            Some(d) => Some(*d),
            None => None,
        }
    }

    /// The cost of the entry popped last, zero before the first pop.
    pub fn last_cost(&self) -> (c: u64)
        ensures
            c == self@.last_cost,
    {
        self.last_cost
    }

    /// The number of queued entries.
    pub fn pending(&self) -> (n: usize)
        ensures
            n == self@.queue.len(),
    {
        self.queue.len()
    }

    /// Takes the least entry off the queue. A stale entry is only dropped;
    /// any other settles its node and makes it the node under expansion.
    /// Costs leave the queue in non-decreasing order.
    pub fn pop(&mut self) -> (r: Option<State>)
        requires
            old(self).wf(),
        ensures
            final(self).wf(),
            match r {
                Some(e) => {
                    &&& old(self)@.queue.contains(e)
                    &&& is_least(old(self)@.queue, e)
                    &&& old(self)@.last_cost <= e.cost
                    &&& final(self)@ == after_pop(old(self)@, e)
                },
                None => old(self)@.queue.len() == 0 && final(self)@ == old(self)@,
            },
    {
        match self.queue.pop() {
            None => None,
            Some(e) => {
                proof {
                    lemma_pop_consistent(old(self)@, e);
                }
                let stale = match self.distances.get(&e.node) {
                    Some(d) => e.cost > *d,
                    None => false,
                };
                self.last_cost = e.cost;
                if stale {
                    self.current = None;
                } else {
                    self.current = Some(e);
                    self.settled = Ghost(self.settled@.insert(e.node));
                }
                assert(self@ =~= after_pop(old(self)@, e));
                Some(e)
            },
        }
    }

    /// Considers a link of weight `weight` from the node under expansion to
    /// `to`. Where the candidate cost improves on what is known of `to`, it
    /// is recorded with the predecessor and queued; the result says whether
    /// it did. A candidate cost beyond `u64::MAX` never improves.
    pub fn relax(&mut self, to: i64, weight: u64) -> (improved: bool)
        requires
            old(self).wf(),
        ensures
            final(self).wf(),
            improved == improves(old(self)@, to, weight),
            final(self)@ == after_relax(old(self)@, to, weight),
    {
        let from = match self.current {
            Some(c) => c,
            None => {
                return false;
            },
        };
        let cost = match from.cost.checked_add(weight) {
            Some(c) => c,
            None => {
                return false;
            },
        };
        let better = match self.distances.get(&to) {
            Some(d) => cost < *d,
            None => true,
        };
        if !better {
            return false;
        }
        proof {
            lemma_relax_consistent(old(self)@, to, weight);
        }
        self.distances.insert(to, cost);
        self.predecessors.insert(to, from.node);
        self.queue.push(State { cost, node: to });
        self.hop = Ghost(self.hop@.insert(to, weight));
        self.depth = Ghost(self.depth@.insert(to, self.depth@[from.node] + 1));
        assert(self@ =~= after_relax(old(self)@, to, weight));
        true
    }

    /// The recorded path from the source to `target`; empty when `target`
    /// was not seen.
    pub fn path_to(&self, target: i64) -> (path: Vec<i64>)
        requires
            self.wf(),
        ensures
            path@ == path_between(self@.pred, self@.source, target),
            self@.dist.contains_key(target) <==> path@.len() > 0,
    {
        proof {
            if self@.dist.contains_key(target) {
                lemma_recorded_path(self@, target);
            } else {
                assert(!self@.pred.contains_key(target));
                assert(target != self@.source);
            }
        }
        reconstruct_path(&self.predecessors, self.source, target)
    }
}

} // verus!
