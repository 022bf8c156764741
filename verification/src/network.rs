//! What a search finds when the store answers truthfully.
//!
//! The engine sees the network only through the replies it is handed. This
//! module states what the replies must agree with: a [`Network`], the
//! nodes that exist, their neighbours and the weight of each link. Of a
//! search all of whose replies were truthful it proves that a found path is
//! a shortest route of the network, and that a search that ran out of
//! entries had no route to find.

use crate::frontier::{
    after_pop, consistent, improves, lemma_pop_consistent, lemma_recorded_path,
    lemma_relax_consistent, links_cost, potential, FrontierView,
};
use crate::node::RawNode;
use crate::queue::State;
use crate::search::{
    after_advance, after_reply, after_step, awaiting, begun, least_of, lemma_has_least,
    lemma_reply_sound, lemma_step_sound, outcome_cost, outcome_path, sound, Event, Phase,
    SearchView,
};
use vstd::prelude::*;

verus! {

broadcast use vstd::multiset::group_multiset_axioms;

/// A road network: the neighbours of each node that exists, and the weight
/// of the link between any two nodes.
pub struct Network {
    pub adjacency: Map<i64, Seq<i64>>,
    pub weight: spec_fn(i64, i64) -> u64,
}

/// One link of a route, travelled from `from` to `to`.
pub struct Link {
    pub from: i64,
    pub to: i64,
    pub weight: u64,
}

/// `l` is a link of the network: both ends exist, the far end is listed as
/// a neighbour of the near end, and the weight is the network's.
pub open spec fn is_link(net: Network, l: Link) -> bool {
    &&& net.adjacency.contains_key(l.from)
    &&& net.adjacency.contains_key(l.to)
    &&& net.adjacency[l.from].contains(l.to)
    &&& (net.weight)(l.from, l.to) == l.weight
}

/// `route` is a chain of links of the network that leads from `from` to
/// `to`. The empty route leads from a node to itself.
pub open spec fn is_route(net: Network, route: Seq<Link>, from: i64, to: i64) -> bool {
    &&& forall|i: int| 0 <= i < route.len() ==> is_link(net, #[trigger] route[i])
    &&& forall|i: int| 0 <= i < route.len() - 1 ==> (#[trigger] route[i]).to == route[i + 1].from
    &&& if route.len() == 0 {
        from == to
    } else {
        route[0].from == from && route[route.len() - 1].to == to
    }
}

/// Sum of the weights of the links of `route`.
pub open spec fn route_cost(route: Seq<Link>) -> int
    decreases route.len(),
{
    if route.len() == 0 {
        0
    } else {
        route_cost(route.drop_last()) + route.last().weight
    }
}

/// The nodes that a route from `from` visits, in order.
pub open spec fn route_nodes(from: i64, route: Seq<Link>) -> Seq<i64> {
    seq![from] + route.map_values(|l: Link| l.to)
}

/// The node agrees with the network: it lies on the globe and exists in
/// the network with these neighbours.
pub open spec fn truthful_node(net: Network, node: RawNode) -> bool {
    node.in_range() && net.adjacency.contains_key(node.id) && net.adjacency[node.id]
        == node.adjacency_list@
}

/// The reply agrees with the network. A fetched node is the one asked for,
/// with its neighbours and the weight of the link to it; a node is reported
/// unavailable only where it does not exist.
pub open spec fn truthful(net: Network, v: SearchView, event: Event) -> bool {
    awaiting(v) ==> match event {
        Event::Tick => true,
        Event::Unavailable => !net.adjacency.contains_key(v.neighbors[v.cursor as int]),
        Event::Neighbor { node, weight } => {
            &&& node.id == v.neighbors[v.cursor as int]
            &&& truthful_node(net, node)
            &&& weight == (net.weight)(v.frontier.current->Some_0.node, node.id)
        },
    }
}

/// The link from `s` to `t` has been taken into account: where `t` exists
/// and the cost through the link is representable, `t` is known at no more
/// than that cost.
pub open spec fn done(net: Network, f: FrontierView, s: i64, t: i64) -> bool {
    net.adjacency.contains_key(t) && f.dist[s] + (net.weight)(s, t) <= u64::MAX
        ==> f.dist.contains_key(t) && f.dist[t] <= f.dist[s] + (net.weight)(s, t)
}

/// Every link that leaves `s` has been taken into account.
pub open spec fn expanded(net: Network, f: FrontierView, s: i64) -> bool {
    forall|k: int| 0 <= k < net.adjacency[s].len() ==> done(net, f, s, #[trigger] net.adjacency[s][k])
}

/// The search has kept to the network: what it recorded is the network's,
/// every settled node but the one under expansion is expanded, and of that
/// one the neighbours dealt with so far are.
pub open spec fn faithful(net: Network, v: SearchView) -> bool {
    let f = v.frontier;
    &&& forall|x: i64| #[trigger]
        f.dist.contains_key(x) ==> net.adjacency.contains_key(x) && v.nodes[x].adjacency_list@
            == net.adjacency[x]
    &&& forall|x: i64| #[trigger]
        f.pred.contains_key(x) ==> is_link(
            net,
            Link { from: f.pred[x], to: x, weight: f.hop[x] },
        )
    &&& forall|s: i64| #[trigger]
        f.settled.contains(s) && !(f.current is Some && f.current->Some_0.node == s) ==> expanded(
            net,
            f,
            s,
        )
    &&& (v.phase == Phase::Searching || v.phase == Phase::Exhausted) && f.current is Some ==> {
        &&& v.neighbors == net.adjacency[f.current->Some_0.node]
        &&& forall|k: int|
            0 <= k < v.cursor && k < v.neighbors.len() ==> done(
                net,
                f,
                f.current->Some_0.node,
                #[trigger] v.neighbors[k],
            )
    }
}

/// A search that begins at a node of the network has kept to it.
pub proof fn lemma_begun_faithful(net: Network, source: RawNode, destination: i64, budget_ms: u64)
    requires
        truthful_node(net, source),
    ensures
        faithful(net, begun(source, destination, budget_ms)),
{
}

proof fn lemma_done_stays(net: Network, f: FrontierView, g: FrontierView, s: i64, t: i64)
    requires
        done(net, f, s, t),
        f.dist.contains_key(s),
        g.dist.contains_key(s),
        g.dist[s] == f.dist[s],
        forall|x: i64| #[trigger] f.dist.contains_key(x) ==> g.dist.contains_key(x) && g.dist[x]
            <= f.dist[x],
    ensures
        done(net, g, s, t),
{
}

proof fn lemma_expanded_stays(net: Network, f: FrontierView, g: FrontierView, s: i64)
    requires
        expanded(net, f, s),
        f.dist.contains_key(s),
        g.dist.contains_key(s),
        g.dist[s] == f.dist[s],
        forall|x: i64| #[trigger] f.dist.contains_key(x) ==> g.dist.contains_key(x) && g.dist[x]
            <= f.dist[x],
    ensures
        expanded(net, g, s),
{
    assert forall|k: int| 0 <= k < net.adjacency[s].len() implies done(
        net,
        g,
        s,
        #[trigger] net.adjacency[s][k],
    ) by {
        lemma_done_stays(net, f, g, s, net.adjacency[s][k]);
    }
}

proof fn lemma_reply_faithful(net: Network, v: SearchView, event: Event)
    requires
        sound(v),
        faithful(net, v),
        truthful(net, v, event),
    ensures
        faithful(net, after_reply(v, event)),
{
    if awaiting(v) {
        let w = after_reply(v, event);
        let f = v.frontier;
        let c = f.current->Some_0;
        match event {
            Event::Tick => {},
            Event::Unavailable => {
                assert forall|k: int| 0 <= k < w.cursor && k < w.neighbors.len() implies done(
                    net,
                    w.frontier,
                    c.node,
                    #[trigger] w.neighbors[k],
                ) by {
                    if k < v.cursor {
                        assert(done(net, f, c.node, v.neighbors[k]));
                    }
                }
            },
            Event::Neighbor { node, weight } => {
                lemma_relax_consistent(f, node.id, weight);
                let g = w.frontier;
                assert(f.settled.contains(c.node));
                assert(f.dist.contains_key(c.node));
                assert forall|x: i64| #[trigger] f.dist.contains_key(x) implies g.dist.contains_key(
                    x,
                ) && g.dist[x] <= f.dist[x] by {}
                if improves(f, node.id, weight) {
                    assert(node.id != c.node);
                    assert(!f.settled.contains(node.id));
                    assert(v.neighbors[v.cursor as int] == node.id);
                    assert(net.adjacency[c.node].contains(node.id));
                    assert forall|x: i64| #[trigger] g.pred.contains_key(x) implies is_link(
                        net,
                        Link { from: g.pred[x], to: x, weight: g.hop[x] },
                    ) by {
                        if x != node.id {
                            assert(f.pred.contains_key(x));
                        }
                    }
                    assert forall|x: i64| #[trigger]
                        g.dist.contains_key(x) implies net.adjacency.contains_key(x)
                        && w.nodes[x].adjacency_list@ == net.adjacency[x] by {
                        if x != node.id {
                            assert(f.dist.contains_key(x));
                        }
                    }
                }
                assert(g.dist[c.node] == f.dist[c.node]);
                assert forall|s: i64| #[trigger]
                    g.settled.contains(s) && !(g.current is Some && g.current->Some_0.node
                        == s) implies expanded(net, g, s) by {
                    assert(f.settled.contains(s));
                    assert(expanded(net, f, s));
                    assert(f.dist.contains_key(s));
                    lemma_expanded_stays(net, f, g, s);
                }
                assert forall|k: int| 0 <= k < w.cursor && k < w.neighbors.len() implies done(
                    net,
                    g,
                    c.node,
                    #[trigger] w.neighbors[k],
                ) by {
                    if k < v.cursor {
                        assert(done(net, f, c.node, v.neighbors[k]));
                        lemma_done_stays(net, f, g, c.node, v.neighbors[k]);
                    }
                }
            },
        }
    }
}

proof fn lemma_advance_faithful(net: Network, v: SearchView)
    requires
        sound(v),
        faithful(net, v),
        v.phase == Phase::Searching,
    ensures
        faithful(net, after_advance(v).0),
{
    let f = v.frontier;
    if !awaiting(v) && f.queue.len() > 0 {
        lemma_has_least(f.queue);
        let e = least_of(f.queue);
        lemma_pop_consistent(f, e);
        assert(f.queue.count(e) > 0);
        let g = after_pop(f, e);
        let w = after_advance(v).0;
        // The node that was under expansion has no neighbour left.
        if f.current is Some {
            let c = f.current->Some_0;
            assert(v.cursor == v.neighbors.len());
            assert(expanded(net, f, c.node));
        }
        assert forall|s: i64| #[trigger]
            g.settled.contains(s) && !(g.current is Some && g.current->Some_0.node
                == s) implies expanded(net, g, s) by {
            assert(f.settled.contains(s));
            assert(expanded(net, f, s));
            assert forall|k: int| 0 <= k < net.adjacency[s].len() implies done(
                net,
                g,
                s,
                #[trigger] net.adjacency[s][k],
            ) by {
                assert(done(net, f, s, net.adjacency[s][k]));
            }
        }
    }
}

/// A step that takes in a truthful reply keeps the search to the network.
pub proof fn lemma_step_faithful(net: Network, v: SearchView, event: Event, elapsed_ms: u64)
    requires
        sound(v),
        faithful(net, v),
        truthful(net, v, event),
    ensures
        sound(after_step(v, event, elapsed_ms).0),
        faithful(net, after_step(v, event, elapsed_ms).0),
{
    lemma_step_sound(v, event, elapsed_ms);
    if v.phase == Phase::Searching && elapsed_ms <= v.budget_ms {
        lemma_reply_faithful(net, v, event);
        let r = after_reply(v, event);
        lemma_reply_sound(v, event);
        lemma_advance_faithful(net, r);
    }
}

/// No link lets the potential rise by more than its weight.
pub open spec fn feasible(net: Network, f: FrontierView, bound: int) -> bool {
    forall|l: Link| #[trigger]
        is_link(net, l) ==> potential(f, bound, l.to) <= potential(f, bound, l.from) + l.weight
}

proof fn lemma_feasible(net: Network, f: FrontierView, bound: int)
    requires
        consistent(f),
        0 <= bound <= u64::MAX + 1,
        forall|s: i64| #[trigger] f.settled.contains(s) && f.dist[s] < bound ==> expanded(net, f, s),
        forall|x: i64| #[trigger]
            f.dist.contains_key(x) && !f.settled.contains(x) ==> f.dist[x] >= bound,
    ensures
        feasible(net, f, bound),
{
    assert forall|l: Link| #[trigger] is_link(net, l) implies potential(f, bound, l.to)
        <= potential(f, bound, l.from) + l.weight by {
        if f.dist.contains_key(l.from) && f.dist[l.from] < bound {
            assert(f.settled.contains(l.from));
            assert(expanded(net, f, l.from));
            let k = choose|k: int|
                0 <= k < net.adjacency[l.from].len() && net.adjacency[l.from][k] == l.to;
            assert(done(net, f, l.from, net.adjacency[l.from][k]));
        }
    }
}

proof fn lemma_route_bound(
    net: Network,
    f: FrontierView,
    bound: int,
    route: Seq<Link>,
    from: i64,
    to: i64,
)
    requires
        feasible(net, f, bound),
        is_route(net, route, from, to),
    ensures
        route_cost(route) >= potential(f, bound, to) - potential(f, bound, from),
    decreases route.len(),
{
    if route.len() > 0 {
        let front = route.drop_last();
        let l = route.last();
        assert(is_link(net, route[route.len() - 1]));
        assert forall|i: int| 0 <= i < front.len() implies is_link(net, #[trigger] front[i]) by {
            assert(front[i] == route[i]);
        }
        assert forall|i: int| 0 <= i < front.len() - 1 implies (#[trigger] front[i]).to
            == front[i + 1].from by {
            assert(front[i] == route[i]);
            assert(front[i + 1] == route[i + 1]);
        }
        if front.len() > 0 {
            assert(front[front.len() - 1] == route[route.len() - 2]);
            assert(route[route.len() - 2].to == route[route.len() - 2 + 1].from);
            assert(front[0] == route[0]);
        }
        assert(is_route(net, front, from, l.from));
        lemma_route_bound(net, f, bound, front, from, l.from);
    }
}

/// The links along the first `n + 1` nodes of the recorded path `p`.
pub open spec fn recorded_route(f: FrontierView, p: Seq<i64>, n: nat) -> Seq<Link> {
    Seq::new(n, |i: int| Link { from: p[i], to: p[i + 1], weight: f.hop[p[i + 1]] })
}

proof fn lemma_recorded_route_cost(f: FrontierView, p: Seq<i64>, n: nat)
    requires
        n < p.len(),
    ensures
        route_cost(recorded_route(f, p, n)) == links_cost(f.hop, p.take(n as int + 1)),
    decreases n,
{
    let r = recorded_route(f, p, n);
    if n > 0 {
        lemma_recorded_route_cost(f, p, (n - 1) as nat);
        assert(r.drop_last() =~= recorded_route(f, p, (n - 1) as nat));
        assert(p.take(n as int + 1).drop_last() =~= p.take(n as int));
        assert(p.take(n as int + 1).last() == p[n as int]);
    } else {
        assert(p.take(1).len() == 1);
    }
}

/// `path` lists the nodes of a route from `from` to `to` that costs `cost`,
/// and no route from `from` to `to` costs less.
pub open spec fn is_shortest(net: Network, from: i64, to: i64, path: Seq<i64>, cost: int) -> bool {
    &&& exists|route: Seq<Link>|
        is_route(net, route, from, to) && #[trigger] route_nodes(from, route) == path
            && route_cost(route) == cost
    &&& forall|other: Seq<Link>|
        is_route(net, other, from, to) ==> cost <= #[trigger] route_cost(other)
}

/// A search that kept to the network and found its destination yields a
/// shortest route: its path is a route of the network from the source to
/// the destination, its cost is the sum of the route's weights, and no
/// route between the two costs less.
pub proof fn lemma_found_is_shortest(net: Network, v: SearchView)
    requires
        sound(v),
        faithful(net, v),
        v.phase == Phase::Found,
    ensures
        is_shortest(
            net,
            v.frontier.source,
            v.destination,
            outcome_path(v),
            outcome_cost(v) as int,
        ),
{
    let f = v.frontier;
    let end = v.destination;
    lemma_recorded_path(f, end);
    let p = outcome_path(v);
    let n = (p.len() - 1) as nat;
    let route = recorded_route(f, p, n);
    lemma_recorded_route_cost(f, p, n);
    assert(p.take(n as int + 1) =~= p);
    assert forall|i: int| 0 <= i < route.len() implies is_link(net, #[trigger] route[i]) by {
        assert(f.pred.contains_key(p[i + 1]));
    }
    assert(route_nodes(f.source, route) =~= p) by {
        let a = route_nodes(f.source, route);
        assert(a.len() == p.len());
        assert forall|i: int| 0 <= i < a.len() implies a[i] == p[i] by {
            if i > 0 {
                assert(a[i] == route[i - 1].to);
            }
        }
    }
    assert(is_route(net, route, f.source, end));
    let bound = f.dist[end] as int;
    assert forall|x: i64| #[trigger] f.dist.contains_key(x) && !f.settled.contains(x) implies f.dist[x]
        >= bound by {
        assert(f.queue.count(State { cost: f.dist[x], node: x }) > 0);
    }
    lemma_feasible(net, f, bound);
    assert forall|other: Seq<Link>| is_route(net, other, f.source, end) implies bound
        <= #[trigger] route_cost(other) by {
        lemma_route_bound(net, f, bound, other, f.source, end);
    }
}

/// A search that kept to the network and ran out of entries had nothing to
/// find: no route of representable cost leads from the source to the
/// destination.
pub proof fn lemma_exhausted_has_no_route(net: Network, v: SearchView, route: Seq<Link>)
    requires
        sound(v),
        faithful(net, v),
        v.phase == Phase::Exhausted,
        is_route(net, route, v.frontier.source, v.destination),
    ensures
        route_cost(route) > u64::MAX,
{
    let f = v.frontier;
    let bound = u64::MAX + 1;
    assert forall|x: i64| #[trigger] f.dist.contains_key(x) implies f.settled.contains(x) by {
        if !f.settled.contains(x) {
            let entry = State { cost: f.dist[x], node: x };
            assert(f.queue.count(entry) > 0);
            assert(f.queue.contains(entry));
            vstd::multiset::lemma_multiset_empty_len(f.queue);
        }
    }
    assert forall|s: i64| #[trigger] f.settled.contains(s) implies expanded(net, f, s) by {
        if f.current is Some && f.current->Some_0.node == s {
            assert forall|k: int| 0 <= k < net.adjacency[s].len() implies done(
                net,
                f,
                s,
                #[trigger] net.adjacency[s][k],
            ) by {
                assert(v.neighbors[k] == net.adjacency[s][k]);
            }
        }
    }
    lemma_feasible(net, f, bound);
    lemma_route_bound(net, f, bound, route, f.source, v.destination);
}

/// The number of nodes of the network that are not settled yet.
pub open spec fn unsettled(net: Network, v: SearchView) -> nat {
    net.adjacency.dom().difference(v.frontier.settled).len()
}

/// The number of neighbours of the node under expansion that are still to
/// be dealt with.
pub open spec fn remaining(v: SearchView) -> nat {
    if awaiting(v) {
        (v.neighbors.len() - v.cursor) as nat
    } else {
        0
    }
}

/// `w` is nearer to the end of the search than `v`: fewer nodes are
/// unsettled, or as many and fewer neighbours remain, or as many of both
/// and fewer entries are queued.
pub open spec fn nearer(net: Network, v: SearchView, w: SearchView) -> bool {
    let (a, b, c) = (unsettled(net, v), remaining(v), v.frontier.queue.len());
    let (x, y, z) = (unsettled(net, w), remaining(w), w.frontier.queue.len());
    x < a || (x == a && (y < b || (y == b && z < c)))
}

/// A search over a finite network comes to an end: every step that
/// answers what was asked either finishes the search or brings it nearer
/// to its end, and it cannot come nearer for ever.
pub proof fn lemma_step_progress(net: Network, v: SearchView, event: Event, elapsed_ms: u64)
    requires
        sound(v),
        faithful(net, v),
        truthful(net, v, event),
        net.adjacency.dom().finite(),
        v.phase == Phase::Searching,
        awaiting(v) ==> !(event is Tick),
    ensures
        after_step(v, event, elapsed_ms).0.phase != Phase::Searching || nearer(
            net,
            v,
            after_step(v, event, elapsed_ms).0,
        ),
{
    if elapsed_ms <= v.budget_ms {
        lemma_reply_sound(v, event);
        lemma_reply_faithful(net, v, event);
        let r = after_reply(v, event);
        assert(r.frontier.settled == v.frontier.settled);
        let w = after_advance(r).0;
        if !awaiting(r) && r.frontier.queue.len() > 0 {
            let f = r.frontier;
            lemma_has_least(f.queue);
            let e = least_of(f.queue);
            lemma_pop_consistent(f, e);
            assert(f.queue.count(e) > 0);
            let g = after_pop(f, e);
            if e.node != r.destination {
                if f.dist.contains_key(e.node) && e.cost > f.dist[e.node] {
                    // A stale entry: one entry fewer, and no neighbour remains.
                    assert(remaining(w) == 0);
                    assert(g.queue.len() == f.queue.len() - 1);
                    if awaiting(v) {
                        assert(remaining(v) >= 1);
                    } else {
                        assert(f.queue == v.frontier.queue);
                    }
                } else {
                    // A fresh entry settles a node of the network.
                    let all = net.adjacency.dom();
                    assert(f.dist.contains_key(e.node));
                    assert(all.contains(e.node));
                    assert(!f.settled.contains(e.node));
                    assert(all.difference(g.settled) =~= all.difference(f.settled).remove(e.node));
                    assert(all.difference(f.settled).contains(e.node));
                    vstd::set_lib::lemma_len_subset(all.difference(f.settled), all);
                }
            }
        }
    }
}

} // verus!
