//! The shortest-path engine over a network whose nodes are fetched on
//! demand.
//!
//! The engine never fetches anything itself. It is a state machine: each
//! call of [`Search::step`] takes what the caller learned since the last
//! call and the time spent so far, and answers with the next thing to do.
//! The caller fetches the node asked for, measures the link to it, and
//! hands both back.

use crate::frontier::{
    after_pop, after_relax, consistent, improves, is_stale, lemma_pop_consistent,
    lemma_recorded_path, lemma_relax_consistent, links_cost, Frontier, FrontierView,
};
use crate::node::{copy_ids, Coordinate, RawNode};
use crate::path::path_between;
use crate::queue::{is_least, lemma_least_is_unique, State};
use std::collections::HashMap;
use vstd::multiset::Multiset;
use vstd::prelude::*;

verus! {

broadcast use {vstd::std_specs::hash::group_hash_axioms, vstd::multiset::group_multiset_axioms};

/// Where a search stands.
#[derive(Clone, Copy, Debug, PartialEq, Eq, Structural)]
pub enum Phase {
    /// The destination has not been reached and entries or time remain.
    Searching,
    /// The destination was popped: the path to it is final.
    Found,
    /// The queue ran empty before the destination was reached.
    Exhausted,
    /// The time budget ran out first.
    TimedOut,
}

/// What the caller is to do next.
#[derive(Clone, Copy, Debug, PartialEq, Eq, Structural)]
pub enum Action {
    /// Fetch node `neighbor`, measure the link from node `from` to it, and
    /// report either with the next step.
    Fetch { from: i64, neighbor: i64 },
    /// Nothing to fetch: step again.
    Continue,
    /// The search is over: read its outcome.
    Finish,
}

/// What the caller reports with a step.
#[derive(Debug)]
pub enum Event {
    /// Nothing new.
    Tick,
    /// The node asked for, and the weight of the link to it in millimetres.
    Neighbor { node: RawNode, weight: u64 },
    /// The node asked for could not be fetched.
    Unavailable,
}

/// Snapshot of a search.
#[verifier::ext_equal]
pub struct SearchView {
    pub frontier: FrontierView,
    pub destination: i64,
    /// The time the search may take, in milliseconds.
    pub budget_ms: u64,
    /// The nodes recorded so far, by id.
    pub nodes: Map<i64, RawNode>,
    /// The neighbours of the node under expansion.
    pub neighbors: Seq<i64>,
    /// How many of them have been dealt with.
    pub cursor: nat,
    pub phase: Phase,
    /// The node settled last (the source before any was).
    pub last_settled: i64,
}

/// The snapshot of a search that has just begun.
pub open spec fn begun(source: RawNode, destination: i64, budget_ms: u64) -> SearchView {
    SearchView {
        frontier: crate::frontier::initial(source.id),
        destination,
        budget_ms,
        nodes: Map::<i64, RawNode>::empty().insert(source.id, source),
        neighbors: Seq::<i64>::empty(),
        cursor: 0,
        phase: Phase::Searching,
        last_settled: source.id,
    }
}

/// The search has asked for a neighbour and waits for the reply.
pub open spec fn awaiting(v: SearchView) -> bool {
    v.phase == Phase::Searching && v.frontier.current is Some && v.cursor < v.neighbors.len()
}

/// The entry that leaves a non-empty queue next.
pub open spec fn least_of(queue: Multiset<State>) -> State {
    choose|e: State| queue.contains(e) && is_least(queue, e)
}

/// The snapshot after a reply was taken in. A reply counts only while the
/// search waits for one: a fetched neighbour is relaxed, and recorded where
/// that improved its cost; an unavailable one is skipped, and so is one
/// that does not lie on the globe.
pub open spec fn after_reply(v: SearchView, event: Event) -> SearchView {
    if !awaiting(v) {
        v
    } else {
        match event {
            Event::Tick => v,
            Event::Unavailable => SearchView { cursor: v.cursor + 1, ..v },
            Event::Neighbor { node, weight } => if node.in_range() {
                SearchView {
                    frontier: after_relax(v.frontier, node.id, weight),
                    nodes: if improves(v.frontier, node.id, weight) {
                        v.nodes.insert(node.id, node)
                    } else {
                        v.nodes
                    },
                    cursor: v.cursor + 1,
                    ..v
                }
            } else {
                SearchView { cursor: v.cursor + 1, ..v }
            },
        }
    }
}

/// One move forward: ask for the next neighbour of the node under
/// expansion, or, when it has none left, pop the next entry. Popping the
/// destination ends the search; a stale entry is dropped; any other entry
/// settles its node, whose neighbours are then asked for one by one.
pub open spec fn after_advance(v: SearchView) -> (SearchView, Action) {
    if awaiting(v) {
        (v, Action::Fetch { from: v.frontier.current->Some_0.node, neighbor: v.neighbors[v.cursor as int] })
    } else if v.frontier.queue.len() == 0 {
        (SearchView { phase: Phase::Exhausted, ..v }, Action::Finish)
    } else {
        let e = least_of(v.frontier.queue);
        let frontier = after_pop(v.frontier, e);
        if e.node == v.destination {
            (SearchView { frontier, phase: Phase::Found, ..v }, Action::Finish)
        } else if is_stale(v.frontier, e) {
            (SearchView { frontier, ..v }, Action::Continue)
        } else {
            let neighbors = v.nodes[e.node].adjacency_list@;
            (
                SearchView { frontier, neighbors, cursor: 0, last_settled: e.node, ..v },
                if neighbors.len() > 0 {
                    Action::Fetch { from: e.node, neighbor: neighbors[0] }
                } else {
                    Action::Continue
                },
            )
        }
    }
}

/// One step of the search. A finished search stays as it is. A search over
/// budget times out, whatever was reported. Otherwise the reply is taken in
/// and the search moves forward once.
pub open spec fn after_step(v: SearchView, event: Event, elapsed_ms: u64) -> (SearchView, Action) {
    if v.phase != Phase::Searching {
        (v, Action::Finish)
    } else if elapsed_ms > v.budget_ms {
        (SearchView { phase: Phase::TimedOut, ..v }, Action::Finish)
    } else {
        after_advance(after_reply(v, event))
    }
}

/// What holds of every snapshot that a search can reach.
pub open spec fn sound(v: SearchView) -> bool {
    &&& consistent(v.frontier)
    &&& forall|x: i64| #[trigger] v.frontier.dist.contains_key(x) ==> v.nodes.contains_key(x)
    &&& v.frontier.dist.contains_key(v.last_settled)
    &&& v.phase == Phase::Searching ==> !v.frontier.settled.contains(v.destination)
    &&& v.phase == Phase::Searching && v.frontier.current is Some ==> v.cursor
        <= v.neighbors.len()
    &&& v.phase == Phase::Found ==> v.frontier.dist.contains_key(v.destination)
        && v.frontier.current == Some(
        State { cost: v.frontier.dist[v.destination], node: v.destination },
    )
    &&& v.phase == Phase::Exhausted ==> v.frontier.queue.len() == 0
        && !v.frontier.settled.contains(v.destination) && (v.frontier.current is Some
        ==> v.cursor == v.neighbors.len())
}

/// A search begins in a sound snapshot.
pub proof fn lemma_begun_sound(source: RawNode, destination: i64, budget_ms: u64)
    ensures
        sound(begun(source, destination, budget_ms)),
{
    crate::frontier::lemma_initial_consistent(source.id);
}

/// Every step keeps the snapshot sound, and a step that pops an entry pops
/// one that costs no less than the entry popped before.
pub proof fn lemma_step_sound(v: SearchView, event: Event, elapsed_ms: u64)
    requires
        sound(v),
    ensures
        sound(after_step(v, event, elapsed_ms).0),
        v.frontier.last_cost <= after_step(v, event, elapsed_ms).0.frontier.last_cost,
{
    if v.phase == Phase::Searching && elapsed_ms <= v.budget_ms {
        let r = after_reply(v, event);
        lemma_reply_sound(v, event);
        lemma_advance_sound(r);
    }
}

/// Taking in a reply keeps the snapshot sound and leaves the phase as it is.
pub proof fn lemma_reply_sound(v: SearchView, event: Event)
    requires
        sound(v),
    ensures
        sound(after_reply(v, event)),
        after_reply(v, event).frontier.last_cost == v.frontier.last_cost,
        after_reply(v, event).phase == v.phase,
{
    if awaiting(v) {
        match event {
            Event::Neighbor { node, weight } => {
                lemma_relax_consistent(v.frontier, node.id, weight);
                if improves(v.frontier, node.id, weight) {
                    let c = v.frontier.current->Some_0;
                    assert(v.frontier.settled.contains(c.node));
                }
            },
            _ => {},
        }
    }
}

proof fn lemma_advance_sound(v: SearchView)
    requires
        sound(v),
        v.phase == Phase::Searching,
    ensures
        sound(after_advance(v).0),
        v.frontier.last_cost <= after_advance(v).0.frontier.last_cost,
{
    if !awaiting(v) && v.frontier.queue.len() > 0 {
        lemma_has_least(v.frontier.queue);
        let e = least_of(v.frontier.queue);
        lemma_pop_consistent(v.frontier, e);
        assert(v.frontier.queue.count(e) > 0);
        if e.node == v.destination {
            lemma_destination_is_fresh(v, e);
        }
    }
}

/// The first entry popped for the destination is never stale: as long as
/// the destination is not settled, its best entry is queued and goes before
/// any other entry for it.
pub proof fn lemma_destination_is_fresh(v: SearchView, e: State)
    requires
        sound(v),
        v.phase == Phase::Searching,
        v.frontier.queue.contains(e),
        is_least(v.frontier.queue, e),
        e.node == v.destination,
    ensures
        !is_stale(v.frontier, e),
        v.frontier.dist.contains_key(e.node),
        v.frontier.dist[e.node] == e.cost,
{
    let f = v.frontier;
    assert(f.queue.count(e) > 0);
    let best = State { cost: f.dist[e.node], node: e.node };
    assert(f.queue.count(best) > 0);
    assert(f.queue.contains(best));
    assert(crate::queue::goes_before(e, best));
}

/// A non-empty finite collection of entries has a least one.
pub proof fn lemma_has_least(queue: Multiset<State>)
    requires
        queue.len() > 0,
    ensures
        exists|e: State| queue.contains(e) && is_least(queue, e),
    decreases queue.len(),
{
    let a = queue.choose();
    vstd::multiset::lemma_multiset_empty_len(queue);
    assert(queue.contains(a));
    let rest = queue.remove(a);
    if rest.len() == 0 {
        assert forall|x: State| queue.contains(x) implies crate::queue::goes_before(a, x) by {
            if x != a {
                assert(rest.contains(x));
                vstd::multiset::lemma_multiset_empty_len(rest);
            }
        }
        assert(queue.contains(a) && is_least(queue, a));
    } else {
        lemma_has_least(rest);
        let b = choose|e: State| rest.contains(e) && is_least(rest, e);
        assert(queue.contains(b));
        if crate::queue::goes_before(a, b) {
            assert forall|x: State| queue.contains(x) implies crate::queue::goes_before(
                a,
                x,
            ) by {
                if x != a {
                    assert(rest.contains(x));
                    assert(crate::queue::goes_before(b, x));
                }
            }
            assert(queue.contains(a) && is_least(queue, a));
        } else {
            assert forall|x: State| queue.contains(x) implies crate::queue::goes_before(
                b,
                x,
            ) by {
                if x != a {
                    assert(rest.contains(x));
                }
            }
            assert(queue.contains(b) && is_least(queue, b));
        }
    }
}

/// The node whose recorded path is the outcome: the destination of a search
/// that found it, the node settled last of one that timed out.
pub open spec fn target(v: SearchView) -> Option<i64> {
    match v.phase {
        Phase::Found => Some(v.destination),
        Phase::TimedOut => Some(v.last_settled),
        _ => None,
    }
}

/// The path that the search yields: the recorded path to its target, and
/// the empty path while the search runs or when the queue ran empty.
pub open spec fn outcome_path(v: SearchView) -> Seq<i64> {
    match target(v) {
        Some(t) => path_between(v.frontier.pred, v.frontier.source, t),
        None => Seq::<i64>::empty(),
    }
}

/// The cost recorded for the target, zero without one.
pub open spec fn outcome_cost(v: SearchView) -> u64 {
    match target(v) {
        Some(t) => v.frontier.dist[t],
        None => 0,
    }
}

/// A search that found its destination or timed out yields a path that
/// leads from the source to the target without visiting a node twice, whose
/// nodes were all recorded, and whose reported link weights add up to the
/// cost recorded for the target.
pub proof fn lemma_outcome(v: SearchView)
    requires
        sound(v),
        target(v) is Some,
    ensures
        ({
            let p = outcome_path(v);
            &&& p.len() >= 1
            &&& p[0] == v.frontier.source
            &&& p[p.len() - 1] == target(v)->Some_0
            &&& p.no_duplicates()
            &&& links_cost(v.frontier.hop, p) == outcome_cost(v)
            &&& forall|i: int| 0 <= i < p.len() ==> v.nodes.contains_key(#[trigger] p[i])
        }),
{
    let t = target(v)->Some_0;
    lemma_recorded_path(v.frontier, t);
    let p = outcome_path(v);
    assert forall|i: int| 0 <= i < p.len() implies v.nodes.contains_key(#[trigger] p[i]) by {
        if i >= 1 {
            assert(v.frontier.pred.contains_key(p[i]));
        }
        assert(v.frontier.dist.contains_key(p[i]));
    }
}

/// What a search yields.
#[derive(Debug)]
pub struct Outcome {
    pub phase: Phase,
    /// The ids of the nodes of the path, in travel order.
    pub path: Vec<i64>,
    /// The positions of the same nodes.
    pub coordinates: Vec<Coordinate>,
    /// The cost recorded for the last node of the path.
    pub cost: u64,
}

/// The executable state of one search.
pub struct Search {
    frontier: Frontier,
    destination: i64,
    budget_ms: u64,
    nodes: HashMap<i64, RawNode>,
    neighbors: Vec<i64>,
    cursor: usize,
    phase: Phase,
    last_settled: i64,
}

impl View for Search {
    type V = SearchView;

    closed spec fn view(&self) -> SearchView {
        SearchView {
            frontier: self.frontier@,
            destination: self.destination,
            budget_ms: self.budget_ms,
            nodes: self.nodes@,
            neighbors: self.neighbors@,
            cursor: self.cursor as nat,
            phase: self.phase,
            last_settled: self.last_settled,
        }
    }
}

impl Search {
    /// The state is one that a search can reach.
    pub open spec fn wf(&self) -> bool {
        sound(self@)
    }

    /// Begins a search from `source` for the node `destination`, with
    /// `budget_ms` milliseconds to spend.
    pub fn new(source: RawNode, destination: i64, budget_ms: u64) -> (s: Search)
        ensures
            s.wf(),
            s@ == begun(source, destination, budget_ms),
    {
        let frontier = Frontier::new(source.id);
        let id = source.id;
        let mut nodes: HashMap<i64, RawNode> = HashMap::new();
        nodes.insert(id, source);
        let s = Search {
            frontier,
            destination,
            budget_ms,
            nodes,
            neighbors: Vec::new(),
            cursor: 0,
            phase: Phase::Searching,
            last_settled: id,
        };
        proof {
            lemma_begun_sound(source, destination, budget_ms);
            assert(s@ =~= begun(source, destination, budget_ms));
        }
        s
    }

    /// Where the search stands.
    pub fn phase(&self) -> (p: Phase)
        ensures
            p == self@.phase,
    {
        self.phase
    }

    /// The cost of the entry popped last, zero before the first pop.
    pub fn last_cost(&self) -> (c: u64)
        ensures
            c == self@.frontier.last_cost,
    {
        self.frontier.last_cost()
    }

    /// The node searched for.
    pub fn destination(&self) -> (d: i64)
        ensures
            d == self@.destination,
    {
        self.destination
    }

    /// The position recorded for node `id`, if the node was recorded.
    pub fn position_of(&self, id: i64) -> (c: Option<Coordinate>)
        ensures
            c == (if self@.nodes.contains_key(id) {
                Some(self@.nodes[id].spec_position())
            } else {
                None
            }),
    {
        match self.nodes.get(&id) {
            Some(n) => Some(n.position()),
            None => None,
        }
    }

    /// Takes in `event`, checks the time spent against the budget, moves
    /// the search forward once and says what to do next.
    pub fn step(&mut self, event: Event, elapsed_ms: u64) -> (action: Action)
        requires
            old(self).wf(),
        ensures
            final(self).wf(),
            (final(self)@, action) == after_step(old(self)@, event, elapsed_ms),
            old(self)@.frontier.last_cost <= final(self)@.frontier.last_cost,
    {
        proof {
            lemma_step_sound(old(self)@, event, elapsed_ms);
        }
        match self.phase {
            Phase::Searching => {},
            _ => {
                return Action::Finish;
            },
        }
        if elapsed_ms > self.budget_ms {
            self.phase = Phase::TimedOut;
            assert(self@ =~= after_step(old(self)@, event, elapsed_ms).0);
            return Action::Finish;
        }
        let waiting = self.frontier.current().is_some() && self.cursor < self.neighbors.len();
        if waiting {
            match event {
                Event::Tick => {},
                Event::Unavailable => {
                    self.cursor = self.cursor + 1;
                },
                Event::Neighbor { node, weight } => {
                    if node.is_in_range() {
                        let improved = self.frontier.relax(node.id, weight);
                        if improved {
                            self.nodes.insert(node.id, node);
                        }
                    }
                    self.cursor = self.cursor + 1;
                },
            }
        }
        let ghost replied = after_reply(old(self)@, event);
        assert(self@ =~= replied);
        proof {
            lemma_reply_sound(old(self)@, event);
        }
        match self.frontier.current() {
            Some(c) => {
                if self.cursor < self.neighbors.len() {
                    return Action::Fetch { from: c.node, neighbor: self.neighbors[self.cursor] };
                }
            },
            None => {},
        }
        match self.frontier.pop() {
            None => {
                self.phase = Phase::Exhausted;
                assert(self@ =~= after_advance(replied).0);
                Action::Finish
            },
            Some(e) => {
                proof {
                    vstd::multiset::lemma_multiset_empty_len(replied.frontier.queue);
                    lemma_has_least(replied.frontier.queue);
                    lemma_least_is_unique(
                        replied.frontier.queue,
                        e,
                        least_of(replied.frontier.queue),
                    );
                    lemma_pop_consistent(replied.frontier, e);
                    assert(replied.frontier.queue.count(e) > 0);
                }
                if e.node == self.destination {
                    self.phase = Phase::Found;
                    assert(self@ =~= after_advance(replied).0);
                    Action::Finish
                } else if self.frontier.current().is_none() {
                    assert(self@ =~= after_advance(replied).0);
                    Action::Continue
                } else {
                    self.last_settled = e.node;
                    self.neighbors = match self.nodes.get(&e.node) {
                        Some(n) => copy_ids(&n.adjacency_list),
                        None => Vec::new(),
                    };
                    self.cursor = 0;
                    assert(self@ =~= after_advance(replied).0);
                    if self.neighbors.len() > 0 {
                        Action::Fetch { from: e.node, neighbor: self.neighbors[0] }
                    } else {
                        Action::Continue
                    }
                }
            },
        }
    }

    /// What the search yields as it stands: the path to the destination once
    /// found, the path to the node settled last after a timeout, and no path
    /// otherwise. A path that is yielded is never empty: it begins at the
    /// source, ends at its target and visits no node twice.
    pub fn outcome(&self) -> (o: Outcome)
        requires
            self.wf(),
        ensures
            o.phase == self@.phase,
            o.path@ == outcome_path(self@),
            o.cost == outcome_cost(self@),
            match target(self@) {
                Some(t) => o.path@.len() >= 1 && o.path@[0] == self@.frontier.source
                    && o.path@[o.path@.len() - 1] == t && o.path@.no_duplicates(),
                None => o.path@.len() == 0,
            },
            o.coordinates@.len() == o.path@.len(),
            forall|i: int|
                0 <= i < o.path@.len() ==> #[trigger] o.coordinates@[i]
                    == self@.nodes[o.path@[i]].spec_position(),
    {
        let goal = match self.phase {
            Phase::Found => self.destination,
            Phase::TimedOut => self.last_settled,
            _ => {
                return Outcome {
                    phase: self.phase,
                    path: Vec::new(),
                    coordinates: Vec::new(),
                    cost: 0,
                };
            },
        };
        proof {
            lemma_outcome(self@);
        }
        let path = self.frontier.path_to(goal);
        let cost = match self.frontier.best_cost(goal) {
            Some(c) => c,
            None => 0,
        };
        let mut coordinates: Vec<Coordinate> = Vec::new();
        let mut i: usize = 0;
        while i < path.len()
            invariant
                i <= path.len(),
                coordinates@.len() == i,
                forall|k: int| 0 <= k < path.len() ==> self@.nodes.contains_key(#[trigger] path@[k]),
                forall|k: int|
                    0 <= k < i ==> #[trigger] coordinates@[k]
                        == self@.nodes[path@[k]].spec_position(),
            decreases path.len() - i,
        {
            let c = match self.position_of(path[i]) {
                Some(c) => c,
                None => Coordinate { latitude: 0, longitude: 0 },
            };
            coordinates.push(c);
            i = i + 1;
        }
        Outcome { phase: self.phase, path, coordinates, cost }
    }
}

} // verus!
