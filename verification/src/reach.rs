//! Connected vertices of an edge list are joined by a walk of
//! representable cost.
//!
//! A walk that visits a vertex twice can be cut short, so the shortest walk
//! between two vertices visits each vertex once at most. There are 2^32
//! vertex ids and no weight is above 2^31, so its cost stays below 2^63.

use crate::graph::{is_hop, is_walk, turned, walk_cost, walk_nodes, weights_valid, Edge};
use vstd::prelude::*;

verus! {

/// Some walk leads from `from` to `to`.
pub open spec fn connected(edges: Seq<Edge>, from: i32, to: i32) -> bool {
    exists|walk: Seq<Edge>| is_walk(edges, walk, from, to)
}

/// The vertex that a walk from `from` has reached after `k` hops.
proof fn lemma_walk_nodes_at(from: i32, walk: Seq<Edge>, k: int)
    requires
        0 <= k <= walk.len(),
    ensures
        walk_nodes(from, walk).len() == walk.len() + 1,
        walk_nodes(from, walk)[k] == (if k == 0 {
            from
        } else {
            walk[k - 1].to
        }),
{
}

/// Cutting the part between two visits of one vertex out of a walk leaves a
/// walk between the same ends.
proof fn lemma_cut(edges: Seq<Edge>, walk: Seq<Edge>, from: i32, to: i32, i: int, j: int)
    requires
        is_walk(edges, walk, from, to),
        0 <= i < j <= walk.len(),
        walk_nodes(from, walk)[i] == walk_nodes(from, walk)[j],
    ensures
        is_walk(edges, walk.take(i) + walk.skip(j), from, to),
        (walk.take(i) + walk.skip(j)).len() < walk.len(),
{
    let cut = walk.take(i) + walk.skip(j);
    lemma_walk_nodes_at(from, walk, i);
    lemma_walk_nodes_at(from, walk, j);
    assert forall|k: int| 0 <= k < cut.len() implies is_hop(edges, #[trigger] cut[k]) by {
        if k < i {
            assert(cut[k] == walk[k]);
        } else {
            assert(cut[k] == walk[k - i + j]);
        }
    }
    assert forall|k: int| 0 <= k < cut.len() - 1 implies (#[trigger] cut[k]).to == cut[k
        + 1].from by {
        if k + 1 < i {
            assert(cut[k] == walk[k] && cut[k + 1] == walk[k + 1]);
        } else if k >= i {
            assert(cut[k] == walk[k - i + j] && cut[k + 1] == walk[k - i + j + 1]);
        } else {
            // The seam: hop i - 1 ends where hop j begins.
            assert(cut[k] == walk[i - 1] && cut[k + 1] == walk[j]);
            assert(walk[j - 1].to == walk[j - 1 + 1].from);
        }
    }
    if cut.len() > 0 {
        if i > 0 {
            assert(cut[0] == walk[0]);
        } else {
            assert(cut[0] == walk[j]);
            assert(walk[j - 1].to == walk[j - 1 + 1].from);
        }
        if j < walk.len() {
            assert(cut[cut.len() - 1] == walk[walk.len() - 1]);
        } else {
            assert(cut[cut.len() - 1] == walk[i - 1]);
        }
    }
}

/// Between two connected vertices there is a walk that visits no vertex
/// twice.
proof fn lemma_simple_walk(edges: Seq<Edge>, walk: Seq<Edge>, from: i32, to: i32) -> (simple: Seq<
    Edge,
>)
    requires
        is_walk(edges, walk, from, to),
    ensures
        is_walk(edges, simple, from, to),
        walk_nodes(from, simple).no_duplicates(),
    decreases walk.len(),
{
    let nodes = walk_nodes(from, walk);
    if nodes.no_duplicates() {
        walk
    } else {
        let (i, j) = choose|i: int, j: int|
            0 <= i < nodes.len() && 0 <= j < nodes.len() && i != j && nodes[i] == nodes[j];
        lemma_walk_nodes_at(from, walk, 0);
        if i < j {
            lemma_cut(edges, walk, from, to, i, j);
            lemma_simple_walk(edges, walk.take(i) + walk.skip(j), from, to)
        } else {
            lemma_cut(edges, walk, from, to, j, i);
            lemma_simple_walk(edges, walk.take(j) + walk.skip(i), from, to)
        }
    }
}

/// A list of distinct vertex ids has 2^32 entries at most.
proof fn lemma_distinct_ids(ids: Seq<i32>)
    requires
        ids.no_duplicates(),
    ensures
        ids.len() <= 0x1_0000_0000,
{
    let widen = |x: i32| x as int;
    let wide = ids.map_values(widen);
    assert(wide.no_duplicates()) by {
        assert forall|i: int, j: int| 0 <= i < wide.len() && 0 <= j < wide.len() && i
            != j implies wide[i] != wide[j] by {
            assert(ids[i] != ids[j]);
        }
    }
    wide.unique_seq_to_set();
    let all = vstd::set_lib::set_int_range(-0x8000_0000, 0x8000_0000);
    vstd::set_lib::lemma_int_range(-0x8000_0000, 0x8000_0000);
    assert(wide.to_set().subset_of(all)) by {
        assert forall|x: int| wide.to_set().contains(x) implies all.contains(x) by {
            let k = choose|k: int| 0 <= k < wide.len() && wide[k] == x;
            assert(wide[k] == ids[k] as int);
        }
    }
    vstd::set_lib::lemma_len_subset(wide.to_set(), all);
}

/// A walk costs no more than the largest weight for each of its hops, and
/// nothing less than zero.
proof fn lemma_cost_by_length(edges: Seq<Edge>, walk: Seq<Edge>)
    requires
        weights_valid(edges),
        forall|i: int| 0 <= i < walk.len() ==> is_hop(edges, #[trigger] walk[i]),
    ensures
        0 <= walk_cost(walk) <= walk.len() * 0x7FFF_FFFF,
    decreases walk.len(),
{
    if walk.len() > 0 {
        let front = walk.drop_last();
        assert forall|i: int| 0 <= i < front.len() implies is_hop(edges, #[trigger] front[i]) by {
            assert(front[i] == walk[i]);
        }
        lemma_cost_by_length(edges, front);
        let h = walk.last();
        assert(is_hop(edges, walk[walk.len() - 1]));
        let j = choose|j: int|
            0 <= j < edges.len() && (#[trigger] edges[j] == h || edges[j] == turned(h));
        assert(edges[j].weight >= 0);
    }
}

/// Connected vertices are joined by a walk whose cost is below 2^63.
pub proof fn lemma_connected_within_reach(edges: Seq<Edge>, from: i32, to: i32)
    requires
        weights_valid(edges),
        connected(edges, from, to),
    ensures
        exists|walk: Seq<Edge>|
            is_walk(edges, walk, from, to) && walk_cost(walk) < 0x8000_0000_0000_0000,
{
    let any = choose|walk: Seq<Edge>| is_walk(edges, walk, from, to);
    let simple = lemma_simple_walk(edges, any, from, to);
    lemma_distinct_ids(walk_nodes(from, simple));
    lemma_walk_nodes_at(from, simple, 0);
    lemma_cost_by_length(edges, simple);
    assert(simple.len() * 0x7FFF_FFFF < 0x8000_0000_0000_0000) by {
        assert(simple.len() <= 0xFFFF_FFFF);
    }
    assert(is_walk(edges, simple, from, to) && walk_cost(simple) < 0x8000_0000_0000_0000);
}

} // verus!
