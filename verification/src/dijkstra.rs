//! Shortest paths over an edge list held in memory.

use crate::frontier::{
    after_pop, after_relax, consistent, improves, is_stale, lemma_pop_consistent,
    lemma_recorded_path, links_cost, potential, Frontier, FrontierView,
};
use crate::graph::{
    adjacency, get_adjacency_nodes, is_hop, is_walk, lemma_adjacency_holds_hops, turned,
    walk_cost, walk_nodes, weights_valid, Edge,
};
use crate::path::path_between;
use crate::queue::{goes_before, is_least, State};
use crate::reach::{connected, lemma_connected_within_reach};
use vstd::prelude::*;

verus! {

broadcast use vstd::multiset::group_multiset_axioms;

/// The result of a search: the vertices of the path found, in travel order,
/// and the sum of its weights. A search that found no path has an empty
/// path and distance zero.
#[derive(Debug)]
pub struct Route {
    pub distance: u64,
    pub path: Vec<i32>,
}

/// Some walk of representable cost leads from `start` to `end`. Connected
/// vertices always have one (see [`lemma_connected_within_reach`]).
pub open spec fn within_reach(edges: Seq<Edge>, start: i32, end: i32) -> bool {
    exists|walk: Seq<Edge>| is_walk(edges, walk, start, end) && walk_cost(walk) <= u64::MAX
}

/// `path` lists the vertices of a walk from `start` to `end` that costs
/// `distance`, and no walk from `start` to `end` costs less.
pub open spec fn is_shortest_route(
    edges: Seq<Edge>,
    start: i32,
    end: i32,
    path: Seq<i32>,
    distance: int,
) -> bool {
    &&& exists|walk: Seq<Edge>|
        is_walk(edges, walk, start, end) && #[trigger] walk_nodes(start, walk) == path
            && walk_cost(walk) == distance
    &&& forall|other: Seq<Edge>|
        is_walk(edges, other, start, end) ==> distance <= #[trigger] walk_cost(other)
}

/// The vertices that a search from `start` can come to see.
spec fn vertices(edges: Seq<Edge>, start: i32) -> Set<i64>
    decreases edges.len(),
{
    if edges.len() == 0 {
        Set::<i64>::empty().insert(start as i64)
    } else {
        vertices(edges.drop_last(), start).insert(edges.last().from as i64).insert(
            edges.last().to as i64,
        )
    }
}

proof fn lemma_vertices(edges: Seq<Edge>, start: i32)
    ensures
        vertices(edges, start).finite(),
        vertices(edges, start).contains(start as i64),
        forall|j: int|
            0 <= j < edges.len() ==> vertices(edges, start).contains((#[trigger] edges[j]).from as i64)
                && vertices(edges, start).contains(edges[j].to as i64),
        forall|x: i64| #[trigger]
            vertices(edges, start).contains(x) ==> i32::MIN <= x <= i32::MAX,
    decreases edges.len(),
{
    if edges.len() > 0 {
        let front = edges.drop_last();
        lemma_vertices(front, start);
        assert forall|j: int| 0 <= j < edges.len() implies vertices(edges, start).contains(
            (#[trigger] edges[j]).from as i64,
        ) && vertices(edges, start).contains(edges[j].to as i64) by {
            if j < front.len() {
                assert(front[j] == edges[j]);
            }
        }
    }
}

/// The hop that a recorded link stands for.
spec fn link_hop(v: FrontierView, x: i64) -> Edge {
    Edge { from: v.pred[x] as i32, to: x as i32, weight: v.hop[x] as i32 }
}

/// The search has only seen vertices of the network, and every link it
/// recorded is a hop of the network.
spec fn follows(edges: Seq<Edge>, start: i32, v: FrontierView) -> bool {
    &&& v.source == start
    &&& forall|x: i64| #[trigger] v.dist.contains_key(x) ==> vertices(edges, start).contains(x)
    &&& forall|x: i64| #[trigger]
        v.pred.contains_key(x) ==> v.hop[x] <= i32::MAX && is_hop(edges, link_hop(v, x))
}

/// Hop `h` has been taken into account: unless the cost through it is not
/// representable, its far end is known at no more than that cost.
spec fn relaxed(v: FrontierView, h: Edge) -> bool {
    v.dist[h.from as i64] + h.weight <= u64::MAX ==> v.dist.contains_key(h.to as i64)
        && v.dist[h.to as i64] <= v.dist[h.from as i64] + h.weight
}

/// Every hop that leaves `s` has been taken into account.
spec fn expanded(edges: Seq<Edge>, v: FrontierView, s: i64) -> bool {
    forall|h: Edge| is_hop(edges, h) && h.from as i64 == s ==> #[trigger] relaxed(v, h)
}

/// Every settled vertex other than `except` is expanded.
spec fn settled_expanded(edges: Seq<Edge>, v: FrontierView, except: Option<i64>) -> bool {
    forall|s: i64| #[trigger]
        v.settled.contains(s) && except != Some(s) ==> expanded(edges, v, s)
}

/// No hop lets the potential rise by more than its weight.
spec fn feasible(edges: Seq<Edge>, v: FrontierView, bound: int) -> bool {
    forall|h: Edge| #[trigger]
        is_hop(edges, h) ==> potential(v, bound, h.to as i64) <= potential(
            v,
            bound,
            h.from as i64,
        ) + h.weight
}

proof fn lemma_hop_weight(edges: Seq<Edge>, h: Edge)
    requires
        weights_valid(edges),
        is_hop(edges, h),
    ensures
        h.weight >= 0,
{
    let j = choose|j: int|
        0 <= j < edges.len() && (#[trigger] edges[j] == h || edges[j] == turned(h));
    assert(edges[j].weight >= 0);
}

/// Where every settled vertex below `bound` is expanded and every other
/// seen vertex costs at least `bound`, the potential is feasible.
proof fn lemma_feasible(edges: Seq<Edge>, v: FrontierView, bound: int)
    requires
        consistent(v),
        weights_valid(edges),
        0 <= bound <= u64::MAX + 1,
        forall|s: i64| #[trigger]
            v.settled.contains(s) && v.dist[s] < bound ==> expanded(edges, v, s),
        forall|x: i64| #[trigger]
            v.dist.contains_key(x) && !v.settled.contains(x) ==> v.dist[x] >= bound,
    ensures
        feasible(edges, v, bound),
{
    assert forall|h: Edge| #[trigger] is_hop(edges, h) implies potential(v, bound, h.to as i64)
        <= potential(v, bound, h.from as i64) + h.weight by {
        lemma_hop_weight(edges, h);
        let u = h.from as i64;
        if v.dist.contains_key(u) && v.dist[u] < bound {
            assert(v.settled.contains(u));
            assert(expanded(edges, v, u));
            assert(relaxed(v, h));
        }
    }
}

/// Under a feasible potential a walk costs at least the rise in potential
/// between its ends.
proof fn lemma_walk_bound(
    edges: Seq<Edge>,
    v: FrontierView,
    bound: int,
    walk: Seq<Edge>,
    from: i32,
    to: i32,
)
    requires
        feasible(edges, v, bound),
        is_walk(edges, walk, from, to),
    ensures
        walk_cost(walk) >= potential(v, bound, to as i64) - potential(v, bound, from as i64),
    decreases walk.len(),
{
    if walk.len() > 0 {
        let front = walk.drop_last();
        let h = walk.last();
        assert(is_hop(edges, walk[walk.len() - 1]));
        assert forall|i: int| 0 <= i < front.len() implies is_hop(edges, #[trigger] front[i]) by {
            assert(front[i] == walk[i]);
        }
        assert forall|i: int| 0 <= i < front.len() - 1 implies (#[trigger] front[i]).to
            == front[i + 1].from by {
            assert(front[i] == walk[i]);
            assert(front[i + 1] == walk[i + 1]);
        }
        if front.len() > 0 {
            assert(front[front.len() - 1] == walk[walk.len() - 2]);
            assert(walk[walk.len() - 2].to == walk[walk.len() - 2 + 1].from);
            assert(front[0] == walk[0]);
        }
        assert(is_walk(edges, front, from, h.from));
        lemma_walk_bound(edges, v, bound, front, from, h.from);
    }
}

/// The hops along the first `n + 1` vertices of the recorded path `p`.
spec fn recorded_walk(v: FrontierView, p: Seq<i64>, n: nat) -> Seq<Edge> {
    Seq::new(n, |i: int| link_hop(v, p[i + 1]))
}

proof fn lemma_recorded_walk_cost(v: FrontierView, p: Seq<i64>, n: nat)
    requires
        n < p.len(),
        forall|i: int| 1 <= i < p.len() ==> v.hop[#[trigger] p[i]] <= i32::MAX,
    ensures
        walk_cost(recorded_walk(v, p, n)) == links_cost(v.hop, p.take(n as int + 1)),
    decreases n,
{
    let w = recorded_walk(v, p, n);
    if n > 0 {
        lemma_recorded_walk_cost(v, p, (n - 1) as nat);
        assert(w.drop_last() =~= recorded_walk(v, p, (n - 1) as nat));
        assert(p.take(n as int + 1).drop_last() =~= p.take(n as int));
        assert(p.take(n as int + 1).last() == p[n as int]);
        assert(w.last() == link_hop(v, p[n as int]));
    } else {
        assert(p.take(1).len() == 1);
    }
}

/// The path recorded for a seen vertex is a walk of the network whose cost
/// is the vertex's recorded cost.
proof fn lemma_recorded_is_walk(edges: Seq<Edge>, start: i32, v: FrontierView, end: i32)
    requires
        consistent(v),
        follows(edges, start, v),
        v.dist.contains_key(end as i64),
    ensures
        ({
            let p = path_between(v.pred, v.source, end as i64);
            let walk = recorded_walk(v, p, (p.len() - 1) as nat);
            &&& p.len() >= 1
            &&& is_walk(edges, walk, start, end)
            &&& walk_cost(walk) == v.dist[end as i64]
            &&& walk_nodes(start, walk) == p.map_values(|x: i64| x as i32)
            &&& forall|i: int| 0 <= i < p.len() ==> i32::MIN <= #[trigger] p[i] <= i32::MAX
        }),
{
    let p = path_between(v.pred, v.source, end as i64);
    lemma_recorded_path(v, end as i64);
    lemma_vertices(edges, start);
    let n = (p.len() - 1) as nat;
    let walk = recorded_walk(v, p, n);
    assert forall|i: int| 0 <= i < p.len() implies i32::MIN <= #[trigger] p[i] <= i32::MAX by {
        if i >= 1 {
            assert(v.pred.contains_key(p[i]));
            assert(v.dist.contains_key(p[i]));
        }
        assert(vertices(edges, start).contains(p[i]));
    }
    assert forall|i: int| 1 <= i < p.len() implies v.hop[#[trigger] p[i]] <= i32::MAX by {
        assert(v.pred.contains_key(p[i]));
    }
    lemma_recorded_walk_cost(v, p, n);
    assert(p.take(n as int + 1) =~= p);
    assert forall|i: int| 0 <= i < walk.len() implies is_hop(edges, #[trigger] walk[i]) by {
        assert(v.pred.contains_key(p[i + 1]));
    }
    assert forall|i: int| 0 <= i < walk.len() - 1 implies (#[trigger] walk[i]).to == walk[i
        + 1].from by {
        assert(v.pred.contains_key(p[i + 2]));
    }
    if walk.len() > 0 {
        assert(v.pred.contains_key(p[1]));
    }
    assert(walk_nodes(start, walk) =~= p.map_values(|x: i64| x as i32)) by {
        let a = walk_nodes(start, walk);
        let b = p.map_values(|x: i64| x as i32);
        assert(a.len() == b.len());
        assert forall|i: int| 0 <= i < a.len() implies a[i] == b[i] by {
            if i > 0 {
                assert(a[i] == walk[i - 1].to);
            }
        }
    }
}

/// Relaxing a link and popping an entry keep what was taken into account.
proof fn lemma_relaxed_stays(v: FrontierView, w: FrontierView, h: Edge)
    requires
        relaxed(v, h),
        v.dist.contains_key(h.from as i64),
        w.dist.contains_key(h.from as i64),
        w.dist[h.from as i64] == v.dist[h.from as i64],
        forall|x: i64| #[trigger]
            v.dist.contains_key(x) ==> w.dist.contains_key(x) && w.dist[x] <= v.dist[x],
    ensures
        relaxed(w, h),
{
}

/// Narrows each vertex id of a path to `i32`.
fn narrow(path: &Vec<i64>) -> (out: Vec<i32>)
    requires
        forall|i: int| 0 <= i < path.len() ==> i32::MIN <= #[trigger] path@[i] <= i32::MAX,
    ensures
        out@ == path@.map_values(|x: i64| x as i32),
{
    let mut out: Vec<i32> = Vec::new();
    let mut i: usize = 0;
    while i < path.len()
        invariant
            i <= path.len(),
            out@.len() == i,
            forall|k: int| 0 <= k < path.len() ==> i32::MIN <= #[trigger] path@[k] <= i32::MAX,
            forall|k: int| 0 <= k < i ==> out@[k] == path@[k] as i32,
        decreases path.len() - i,
    {
        out.push(path[i] as i32);
        i = i + 1;
    }
    assert(out@ =~= path@.map_values(|x: i64| x as i32));
    out
}

/// Finds a cheapest walk from `start` to `end` over the edge list, every
/// edge of which can be travelled both ways.
///
/// Where the two vertices are connected, the result is the vertices and the
/// cost of a walk between them that no other walk undercuts. Where they are
/// not, the path is empty and the distance zero.
pub fn dijkstra(edges: &Vec<Edge>, start: i32, end: i32) -> (route: Route)
    requires
        weights_valid(edges@),
    ensures
        connected(edges@, start, end) ==> is_shortest_route(
            edges@,
            start,
            end,
            route.path@,
            route.distance as int,
        ),
        connected(edges@, start, end) ==> route.path@.len() >= 1 && route.path@[0] == start
            && route.path@[route.path@.len() - 1] == end,
        !connected(edges@, start, end) ==> route.path@.len() == 0 && route.distance == 0,
{
    let mut f = Frontier::new(start as i64);
    proof {
        lemma_vertices(edges@, start);
    }
    loop
        invariant
            weights_valid(edges@),
            f.wf(),
            follows(edges@, start, f@),
            settled_expanded(edges@, f@, None),
            !f@.settled.contains(end as i64),
            f@.settled.finite(),
            f@.settled.subset_of(vertices(edges@, start)),
            vertices(edges@, start).finite(),
        decreases vertices(edges@, start).len() - f@.settled.len(), f@.queue.len(),
    {
        let ghost before = f@;
        let popped = f.pop();
        let e = match popped {
            Some(e) => e,
            None => {
                proof {
                    lemma_exhausted(edges@, start, end, f@);
                    if connected(edges@, start, end) {
                        lemma_connected_within_reach(edges@, start, end);
                    }
                }
                return Route { distance: 0, path: Vec::new() };
            },
        };
        proof {
            lemma_pop_consistent(before, e);
            lemma_pop_follows(edges@, start, before, e);
        }
        if e.node == end as i64 {
            let found = f.path_to(e.node);
            proof {
                lemma_found(edges@, start, end, before, e);
            }
            let path = narrow(&found);
            return Route { distance: e.cost, path };
        }
        if f.current().is_none() {
            continue;
        }
        proof {
            vstd::set_lib::lemma_len_subset(f@.settled, vertices(edges@, start));
        }
        let ghost popped_view = f@;
        let hops = get_adjacency_nodes(edges, e.node as i32);
        let mut k: usize = 0;
        while k < hops.len()
            invariant
                weights_valid(edges@),
                k <= hops.len(),
                hops@ == adjacency(edges@, e.node as i32),
                i32::MIN <= e.node <= i32::MAX,
                f.wf(),
                follows(edges@, start, f@),
                f@.current == Some(e),
                f@.settled == popped_view.settled,
                settled_expanded(edges@, f@, Some(e.node)),
                forall|i: int| 0 <= i < k ==> relaxed(f@, #[trigger] hops@[i]),
            decreases hops.len() - k,
        {
            let h = hops[k];
            let ghost pre = f@;
            proof {
                lemma_adjacency_holds_hops(edges@, e.node as i32, h);
                assert(hops@.contains(h));
                lemma_hop_weight(edges@, h);
                lemma_vertices(edges@, start);
            }
            f.relax(h.to as i64, h.weight as u64);
            proof {
                lemma_relax_follows(edges@, start, pre, h);
                assert forall|i: int| 0 <= i < k implies relaxed(f@, #[trigger] hops@[i]) by {
                    lemma_adjacency_holds_hops(edges@, e.node as i32, hops@[i]);
                    assert(hops@.contains(hops@[i]));
                    lemma_relaxed_stays(pre, f@, hops@[i]);
                }
            }
            k = k + 1;
        }
        proof {
            assert forall|h: Edge| is_hop(edges@, h) && h.from as i64 == e.node implies #[trigger] relaxed(
                f@,
                h,
            ) by {
                lemma_adjacency_holds_hops(edges@, e.node as i32, h);
                let i = choose|i: int| 0 <= i < hops@.len() && hops@[i] == h;
                assert(relaxed(f@, hops@[i]));
            }
            assert(expanded(edges@, f@, e.node));
        }
    }
}

/// Popping keeps the search on the network, and keeps expanded what was.
proof fn lemma_pop_follows(edges: Seq<Edge>, start: i32, v: FrontierView, e: State)
    requires
        consistent(v),
        follows(edges, start, v),
        settled_expanded(edges, v, None),
        v.settled.finite(),
        v.settled.subset_of(vertices(edges, start)),
        v.queue.contains(e),
        is_least(v.queue, e),
    ensures
        follows(edges, start, after_pop(v, e)),
        after_pop(v, e).settled.finite(),
        after_pop(v, e).settled.subset_of(vertices(edges, start)),
        i32::MIN <= e.node <= i32::MAX,
        is_stale(v, e) ==> settled_expanded(edges, after_pop(v, e), None) && after_pop(
            v,
            e,
        ).settled == v.settled && after_pop(v, e).queue.len() == v.queue.len() - 1,
        !is_stale(v, e) ==> settled_expanded(edges, after_pop(v, e), Some(e.node)) && after_pop(
            v,
            e,
        ).settled.len() == v.settled.len() + 1,
{
    lemma_pop_consistent(v, e);
    lemma_vertices(edges, start);
    let w = after_pop(v, e);
    assert(v.queue.count(e) > 0);
    assert(v.dist.contains_key(e.node));
    assert forall|s: i64| #[trigger] w.settled.contains(s) && (is_stale(v, e) || s
        != e.node) implies expanded(edges, w, s) by {
        assert(v.settled.contains(s));
        assert(expanded(edges, v, s));
        assert forall|h: Edge| is_hop(edges, h) && h.from as i64 == s implies #[trigger] relaxed(
            w,
            h,
        ) by {
            assert(relaxed(v, h));
        }
    }
}

/// Relaxing a hop out of the vertex under expansion keeps the search on the
/// network, takes the hop into account and keeps expanded what was.
proof fn lemma_relax_follows(edges: Seq<Edge>, start: i32, v: FrontierView, h: Edge)
    requires
        consistent(v),
        weights_valid(edges),
        follows(edges, start, v),
        v.current is Some,
        is_hop(edges, h),
        h.from as i64 == v.current->Some_0.node,
        settled_expanded(edges, v, Some(v.current->Some_0.node)),
    ensures
        follows(edges, start, after_relax(v, h.to as i64, h.weight as u64)),
        relaxed(after_relax(v, h.to as i64, h.weight as u64), h),
        settled_expanded(
            edges,
            after_relax(v, h.to as i64, h.weight as u64),
            Some(v.current->Some_0.node),
        ),
        after_relax(v, h.to as i64, h.weight as u64).settled == v.settled,
        after_relax(v, h.to as i64, h.weight as u64).current == v.current,
        forall|x: i64| #[trigger]
            v.dist.contains_key(x) ==> after_relax(
                v,
                h.to as i64,
                h.weight as u64,
            ).dist.contains_key(x) && after_relax(v, h.to as i64, h.weight as u64).dist[x]
                <= v.dist[x],
        after_relax(v, h.to as i64, h.weight as u64).dist[h.from as i64] == v.dist[h.from as i64],
{
    lemma_hop_weight(edges, h);
    lemma_vertices(edges, start);
    crate::frontier::lemma_relax_consistent(v, h.to as i64, h.weight as u64);
    let to = h.to as i64;
    let weight = h.weight as u64;
    let w = after_relax(v, to, weight);
    let c = v.current->Some_0;
    let j = choose|j: int|
        0 <= j < edges.len() && (#[trigger] edges[j] == h || edges[j] == turned(h));
    assert(vertices(edges, start).contains(edges[j].from as i64) && vertices(
        edges,
        start,
    ).contains(edges[j].to as i64));
    assert(vertices(edges, start).contains(to));
    if improves(v, to, weight) {
        assert(!v.settled.contains(to));
        assert(to != c.node);
        assert forall|x: i64| #[trigger] w.pred.contains_key(x) implies w.hop[x] <= i32::MAX
            && is_hop(edges, link_hop(w, x)) by {
            if x == to {
                assert(link_hop(w, x) == h);
            } else {
                assert(v.pred.contains_key(x));
                assert(link_hop(w, x) == link_hop(v, x));
            }
        }
        assert forall|s: i64| #[trigger] w.settled.contains(s) && s != c.node implies expanded(
            edges,
            w,
            s,
        ) by {
            assert(expanded(edges, v, s));
            assert forall|g: Edge| is_hop(edges, g) && g.from as i64 == s implies #[trigger] relaxed(
                w,
                g,
            ) by {
                assert(relaxed(v, g));
            }
        }
    }
}

/// When the least entry is the destination's, the recorded path to it is a
/// shortest route.
proof fn lemma_found(edges: Seq<Edge>, start: i32, end: i32, v: FrontierView, e: State)
    requires
        consistent(v),
        weights_valid(edges),
        follows(edges, start, v),
        settled_expanded(edges, v, None),
        v.settled.finite(),
        v.settled.subset_of(vertices(edges, start)),
        !v.settled.contains(end as i64),
        v.queue.contains(e),
        is_least(v.queue, e),
        e.node == end as i64,
    ensures
        within_reach(edges, start, end),
        is_shortest_route(
            edges,
            start,
            end,
            path_between(after_pop(v, e).pred, after_pop(v, e).source, end as i64).map_values(
                |x: i64| x as i32,
            ),
            e.cost as int,
        ),
        forall|i: int|
            0 <= i < path_between(after_pop(v, e).pred, after_pop(v, e).source, end as i64).len()
                ==> i32::MIN <= #[trigger] path_between(
                after_pop(v, e).pred,
                after_pop(v, e).source,
                end as i64,
            )[i] <= i32::MAX,
        ({
            let p = path_between(after_pop(v, e).pred, after_pop(v, e).source, end as i64);
            p.len() >= 1 && p[0] == start as i64 && p[p.len() - 1] == end as i64
        }),
        connected(edges, start, end),
{
    lemma_pop_consistent(v, e);
    lemma_pop_follows(edges, start, v, e);
    let w = after_pop(v, e);
    assert(v.queue.count(e) > 0);
    // The destination's own best entry is queued, so the least entry is it.
    let best = State { cost: v.dist[e.node], node: e.node };
    assert(v.queue.count(best) > 0);
    assert(v.queue.contains(best));
    assert(goes_before(e, best));
    assert(!is_stale(v, e));
    assert(w.dist[end as i64] == e.cost);
    lemma_recorded_is_walk(edges, start, w, end);
    let p = path_between(w.pred, w.source, end as i64);
    let walk = recorded_walk(w, p, (p.len() - 1) as nat);
    let bound = e.cost as int;
    assert forall|x: i64| #[trigger] w.dist.contains_key(x) && !w.settled.contains(x) implies w.dist[x]
        >= bound by {
        assert(w.queue.count(State { cost: w.dist[x], node: x }) > 0);
    }
    assert forall|s: i64| #[trigger] w.settled.contains(s) && w.dist[s] < bound implies expanded(
        edges,
        w,
        s,
    ) by {
        assert(s != e.node);
    }
    lemma_feasible(edges, w, bound);
    assert forall|other: Seq<Edge>| is_walk(edges, other, start, end) implies bound
        <= #[trigger] walk_cost(other) by {
        lemma_walk_bound(edges, w, bound, other, start, end);
    }
    assert(walk_nodes(start, walk) == p.map_values(|x: i64| x as i32));
    lemma_recorded_path(w, end as i64);
}

/// When the queue is empty and the destination was never popped, no walk of
/// representable cost leads to it.
proof fn lemma_exhausted(edges: Seq<Edge>, start: i32, end: i32, v: FrontierView)
    requires
        consistent(v),
        weights_valid(edges),
        follows(edges, start, v),
        settled_expanded(edges, v, None),
        !v.settled.contains(end as i64),
        v.queue.len() == 0,
    ensures
        !within_reach(edges, start, end),
{
    let bound = u64::MAX + 1;
    assert forall|x: i64| #[trigger] v.dist.contains_key(x) implies v.settled.contains(x) by {
        if !v.settled.contains(x) {
            let entry = State { cost: v.dist[x], node: x };
            assert(v.queue.count(entry) > 0);
            assert(v.queue.contains(entry));
            vstd::multiset::lemma_multiset_empty_len(v.queue);
        }
    }
    lemma_feasible(edges, v, bound);
    assert forall|walk: Seq<Edge>| is_walk(edges, walk, start, end) implies walk_cost(walk)
        > u64::MAX by {
        lemma_walk_bound(edges, v, bound, walk, start, end);
    }
}

} // verus!
