//! Rebuilding a path from the predecessor links that a search recorded.

use std::collections::HashMap;
use vstd::prelude::*;

verus! {

broadcast use vstd::std_specs::hash::group_hash_axioms;

/// The nodes met when following predecessor links from `cur` back to
/// `start`, listed from `start` to `cur`, or `None` when the walk leaves the
/// map or does more than `fuel` steps before it meets `start`.
pub open spec fn walk_back(pred: Map<i64, i64>, start: i64, cur: i64, fuel: nat) -> Option<
    Seq<i64>,
>
    decreases fuel,
{
    if cur == start {
        Some(seq![start])
    } else if fuel == 0 || !pred.contains_key(cur) {
        None
    } else {
        match walk_back(pred, start, pred[cur], (fuel - 1) as nat) {
            Some(p) => Some(p.push(cur)),
            None => None,
        }
    }
}

/// The path from `start` to `end` that the predecessor links describe, or
/// the empty sequence when the links do not lead from `end` back to `start`.
/// A walk that reaches `start` never visits a node twice, so it needs at most
/// as many steps as the map has entries (see [`lemma_walk_back_fuel`]).
pub open spec fn path_between(pred: Map<i64, i64>, start: i64, end: i64) -> Seq<i64> {
    match walk_back(pred, start, end, pred.dom().len()) {
        Some(p) => p,
        None => Seq::empty(),
    }
}

/// Shape of a successful walk: it starts at `start`, ends at `cur`, every
/// later node is a key of the map whose link is the node before it, and
/// `start` occurs only in front.
pub proof fn lemma_walk_back_shape(pred: Map<i64, i64>, start: i64, cur: i64, fuel: nat)
    requires
        walk_back(pred, start, cur, fuel) is Some,
    ensures
        ({
            let p = walk_back(pred, start, cur, fuel)->Some_0;
            &&& 1 <= p.len() <= fuel + 1
            &&& p[0] == start
            &&& p[p.len() - 1] == cur
            &&& forall|i: int|
                1 <= i < p.len() ==> #[trigger] p[i] != start && pred.contains_key(p[i])
                    && pred[p[i]] == p[i - 1]
        }),
    decreases fuel,
{
    if cur != start {
        lemma_walk_back_shape(pred, start, pred[cur], (fuel - 1) as nat);
    }
}

/// More fuel never changes a walk that already succeeded.
pub proof fn lemma_walk_back_more_fuel(
    pred: Map<i64, i64>,
    start: i64,
    cur: i64,
    fuel: nat,
    more: nat,
)
    requires
        walk_back(pred, start, cur, fuel) is Some,
        fuel <= more,
    ensures
        walk_back(pred, start, cur, more) == walk_back(pred, start, cur, fuel),
    decreases fuel,
{
    if cur != start {
        lemma_walk_back_more_fuel(pred, start, pred[cur], (fuel - 1) as nat, (more - 1) as nat);
    }
}

/// A walk is fixed by its links, so it reads the same from any node on it:
/// the nodes up to position `i` are the walk back from the node at `i`.
proof fn lemma_walk_back_prefix(pred: Map<i64, i64>, start: i64, cur: i64, fuel: nat, i: int)
    requires
        walk_back(pred, start, cur, fuel) is Some,
        0 <= i < walk_back(pred, start, cur, fuel)->Some_0.len(),
    ensures
        ({
            let p = walk_back(pred, start, cur, fuel)->Some_0;
            walk_back(pred, start, p[i], i as nat) == Some(p.subrange(0, i + 1))
        }),
    decreases fuel,
{
    let p = walk_back(pred, start, cur, fuel)->Some_0;
    lemma_walk_back_shape(pred, start, cur, fuel);
    if cur == start {
        assert(p.subrange(0, 1) =~= seq![start]);
    } else {
        let q = walk_back(pred, start, pred[cur], (fuel - 1) as nat)->Some_0;
        lemma_walk_back_shape(pred, start, pred[cur], (fuel - 1) as nat);
        if i == p.len() - 1 {
            lemma_walk_back_exact_fuel(pred, start, cur, fuel);
            assert(p.subrange(0, i + 1) =~= p);
        } else {
            lemma_walk_back_prefix(pred, start, pred[cur], (fuel - 1) as nat, i);
            assert(q.subrange(0, i + 1) =~= p.subrange(0, i + 1));
        }
    }
}

/// A successful walk needs exactly one step for each node after `start`.
proof fn lemma_walk_back_exact_fuel(pred: Map<i64, i64>, start: i64, cur: i64, fuel: nat)
    requires
        walk_back(pred, start, cur, fuel) is Some,
    ensures
        ({
            let p = walk_back(pred, start, cur, fuel)->Some_0;
            walk_back(pred, start, cur, (p.len() - 1) as nat) == Some(p)
        }),
    decreases fuel,
{
    if cur != start {
        lemma_walk_back_exact_fuel(pred, start, pred[cur], (fuel - 1) as nat);
    }
}

/// A walk that reaches `start` visits no node twice.
pub proof fn lemma_walk_back_no_duplicates(pred: Map<i64, i64>, start: i64, cur: i64, fuel: nat)
    requires
        walk_back(pred, start, cur, fuel) is Some,
    ensures
        walk_back(pred, start, cur, fuel)->Some_0.no_duplicates(),
{
    let p = walk_back(pred, start, cur, fuel)->Some_0;
    lemma_walk_back_shape(pred, start, cur, fuel);
    assert forall|i: int, j: int| 0 <= i < j < p.len() implies p[i] != p[j] by {
        lemma_walk_back_prefix(pred, start, cur, fuel, i);
        lemma_walk_back_prefix(pred, start, cur, fuel, j);
        if p[i] == p[j] {
            // The same node would be reached by walks of two lengths.
            lemma_walk_back_more_fuel(pred, start, p[i], i as nat, j as nat);
            assert(p.subrange(0, i + 1).len() == p.subrange(0, j + 1).len());
        }
    }
}

/// Whatever fuel lets a walk reach `start`, as many steps as the map has
/// entries are enough: the nodes after `start` are distinct keys of the map.
pub proof fn lemma_walk_back_fuel(pred: Map<i64, i64>, start: i64, cur: i64, fuel: nat)
    requires
        pred.dom().finite(),
        walk_back(pred, start, cur, fuel) is Some,
    ensures
        walk_back(pred, start, cur, pred.dom().len()) == walk_back(pred, start, cur, fuel),
{
    let p = walk_back(pred, start, cur, fuel)->Some_0;
    lemma_walk_back_shape(pred, start, cur, fuel);
    lemma_walk_back_no_duplicates(pred, start, cur, fuel);
    lemma_walk_back_exact_fuel(pred, start, cur, fuel);
    let tail = p.subrange(1, p.len() as int);
    assert(tail.no_duplicates());
    tail.unique_seq_to_set();
    assert(tail.to_set().subset_of(pred.dom())) by {
        assert forall|x: i64| tail.to_set().contains(x) implies pred.dom().contains(x) by {
            let k = choose|k: int| 0 <= k < tail.len() && tail[k] == x;
            assert(tail[k] == p[k + 1]);
        }
    }
    vstd::set_lib::lemma_len_subset(tail.to_set(), pred.dom());
    lemma_walk_back_more_fuel(pred, start, cur, (p.len() - 1) as nat, pred.dom().len());
    if (p.len() - 1) as nat <= fuel {
        lemma_walk_back_more_fuel(pred, start, cur, (p.len() - 1) as nat, fuel);
    }
}

/// Follows the predecessor links from `end` back to `start` and returns the
/// nodes in travel order. Links that do not lead back to `start` (a missing
/// entry, or a cycle) give the empty path, never a truncated one.
pub fn reconstruct_path(predecessors: &HashMap<i64, i64>, start: i64, end: i64) -> (path: Vec<i64>)
    ensures
        path@ == path_between(predecessors@, start, end),
{
    let limit: usize = predecessors.len();
    let mut backwards: Vec<i64> = Vec::new();
    let mut current: i64 = end;
    let mut steps: usize = 0;
    while current != start
        invariant
            limit == predecessors@.dom().len(),
            steps <= limit,
            backwards@.len() == steps,
            walk_back(predecessors@, start, end, limit as nat) == (match walk_back(
                predecessors@,
                start,
                current,
                (limit - steps) as nat,
            ) {
                Some(p) => Some(p + backwards@.reverse()),
                None => None,
            }),
        decreases limit - steps,
    {
        if steps == limit {
            return Vec::new();
        }
        match predecessors.get(&current) {
            Some(previous) => {
                proof {
                    let rest = walk_back(
                        predecessors@,
                        start,
                        *previous,
                        (limit - steps - 1) as nat,
                    );
                    if rest is Some {
                        let p = rest->Some_0;
                        assert(p.push(current) + backwards@.reverse() =~= p + backwards@.push(
                            current,
                        ).reverse());
                    }
                }
                backwards.push(current);
                current = *previous;
                steps = steps + 1;
            },
            None => {
                return Vec::new();
            },
        }
    }
    backwards.push(start);
    let path = reversed(&backwards);
    proof {
        assert(seq![start] + backwards@.drop_last().reverse() =~= backwards@.reverse());
    }
    path
}

/// The elements of `items` in opposite order.
pub fn reversed(items: &Vec<i64>) -> (out: Vec<i64>)
    ensures
        out@ == items@.reverse(),
{
    let mut out: Vec<i64> = Vec::new();
    let mut i: usize = items.len();
    while i > 0
        invariant
            i <= items.len(),
            out@.len() == items.len() - i,
            forall|k: int| 0 <= k < out@.len() ==> out@[k] == items@[items.len() - 1 - k],
        decreases i,
    {
        i = i - 1;
        out.push(items[i]);
    }
    assert(out@ =~= items@.reverse());
    out
}

} // verus!
