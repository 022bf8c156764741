//! An undirected road network held as a list of weighted edges.

use vstd::prelude::*;

verus! {

/// A vertex of the network.
#[derive(Clone, Copy, Debug, PartialEq, Eq, Structural)]
pub struct Vertex {
    pub id: i32,
}

/// A weighted link between two vertices. In an edge list it can be
/// travelled both ways; as a hop of a walk it is travelled from `from` to
/// `to`.
#[derive(Clone, Copy, Debug, PartialEq, Eq, Structural)]
pub struct Edge {
    pub weight: i32,
    pub from: i32,
    pub to: i32,
}

/// The same link travelled the other way.
pub open spec fn turned(e: Edge) -> Edge {
    Edge { weight: e.weight, from: e.to, to: e.from }
}

/// Every weight of the list is non-negative.
pub open spec fn weights_valid(edges: Seq<Edge>) -> bool {
    forall|j: int| 0 <= j < edges.len() ==> #[trigger] edges[j].weight >= 0
}

/// `h` is a hop of the network: some edge of the list, travelled one way or
/// the other.
pub open spec fn is_hop(edges: Seq<Edge>, h: Edge) -> bool {
    exists|j: int| 0 <= j < edges.len() && (#[trigger] edges[j] == h || edges[j] == turned(h))
}

/// The hops that leave `node`, in list order; an edge from `node` to itself
/// is listed twice.
pub open spec fn adjacency(edges: Seq<Edge>, node: i32) -> Seq<Edge>
    decreases edges.len(),
{
    if edges.len() == 0 {
        Seq::empty()
    } else {
        let rest = adjacency(edges.drop_last(), node);
        let e = edges.last();
        let forth = if e.from == node {
            rest.push(e)
        } else {
            rest
        };
        if e.to == node {
            forth.push(turned(e))
        } else {
            forth
        }
    }
}

/// The adjacency of a node holds exactly the hops of the network that leave
/// it.
pub proof fn lemma_adjacency_holds_hops(edges: Seq<Edge>, node: i32, h: Edge)
    ensures
        adjacency(edges, node).contains(h) <==> is_hop(edges, h) && h.from == node,
    decreases edges.len(),
{
    let adj = adjacency(edges, node);
    if edges.len() == 0 {
    } else {
        let front = edges.drop_last();
        let rest = adjacency(front, node);
        let e = edges.last();
        lemma_adjacency_holds_hops(front, node, h);
        let forth = if e.from == node {
            rest.push(e)
        } else {
            rest
        };
        if adj.contains(h) {
            let k = choose|k: int| 0 <= k < adj.len() && adj[k] == h;
            if k < rest.len() {
                assert(rest[k] == h);
                assert(rest.contains(h));
                let j = choose|j: int|
                    0 <= j < front.len() && (#[trigger] front[j] == h || front[j] == turned(h));
                assert(edges[j] == front[j]);
            } else {
                assert(h == e || h == turned(e));
                assert(edges[edges.len() - 1] == e);
            }
        }
        if is_hop(edges, h) && h.from == node {
            let j = choose|j: int|
                0 <= j < edges.len() && (#[trigger] edges[j] == h || edges[j] == turned(h));
            if j < front.len() {
                assert(front[j] == edges[j]);
                assert(is_hop(front, h));
                let k = choose|k: int| 0 <= k < rest.len() && rest[k] == h;
                assert(adj[k] == h);
            } else {
                if e == h {
                    assert(forth[rest.len() as int] == h);
                    assert(adj[rest.len() as int] == h);
                } else {
                    assert(e.to == node && turned(e) == h);
                    assert(adj[adj.len() - 1] == h);
                }
            }
        }
    }
}

/// The hops that leave `node`: each edge of the list that touches it,
/// turned so that it starts at `node`.
pub fn get_adjacency_nodes(edges: &Vec<Edge>, node: i32) -> (out: Vec<Edge>)
    ensures
        out@ == adjacency(edges@, node),
{
    let mut out: Vec<Edge> = Vec::new();
    let mut i: usize = 0;
    while i < edges.len()
        invariant
            i <= edges.len(),
            out@ == adjacency(edges@.take(i as int), node),
        decreases edges.len() - i,
    {
        let e = edges[i];
        assert(edges@.take(i + 1).drop_last() =~= edges@.take(i as int));
        if e.from == node {
            out.push(Edge { from: e.from, to: e.to, weight: e.weight });
        }
        if e.to == node {
            out.push(Edge { from: e.to, to: e.from, weight: e.weight });
        }
        i = i + 1;
    }
    assert(edges@.take(i as int) =~= edges@);
    out
}

/// Whether every weight of the list is non-negative.
pub fn weights_are_valid(edges: &Vec<Edge>) -> (ok: bool)
    ensures
        ok == weights_valid(edges@),
{
    let mut i: usize = 0;
    while i < edges.len()
        invariant
            i <= edges.len(),
            forall|j: int| 0 <= j < i ==> #[trigger] edges@[j].weight >= 0,
        decreases edges.len() - i,
    {
        if edges[i].weight < 0 {
            return false;
        }
        i = i + 1;
    }
    true
}

/// `walk` is a chain of hops of the network that leads from `from` to `to`.
/// The empty walk leads from a vertex to itself.
pub open spec fn is_walk(edges: Seq<Edge>, walk: Seq<Edge>, from: i32, to: i32) -> bool {
    &&& forall|i: int| 0 <= i < walk.len() ==> is_hop(edges, #[trigger] walk[i])
    &&& forall|i: int| 0 <= i < walk.len() - 1 ==> (#[trigger] walk[i]).to == walk[i + 1].from
    &&& if walk.len() == 0 {
        from == to
    } else {
        walk[0].from == from && walk[walk.len() - 1].to == to
    }
}

/// Sum of the weights of the hops of `walk`.
pub open spec fn walk_cost(walk: Seq<Edge>) -> int
    decreases walk.len(),
{
    if walk.len() == 0 {
        0
    } else {
        walk_cost(walk.drop_last()) + walk.last().weight
    }
}

/// The vertices that a walk from `from` visits, in order.
pub open spec fn walk_nodes(from: i32, walk: Seq<Edge>) -> Seq<i32> {
    seq![from] + walk.map_values(|h: Edge| h.to)
}

} // verus!
