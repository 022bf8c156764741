//! Snapping a waypoint to the nearest node of the network.
//!
//! The store finds candidate nodes near the waypoint and the caller
//! measures how far each lies from it, in millimetres. The choice among
//! them is made here.

use crate::error::RouteError;
use crate::node::{copy_ids, Coordinate, RawNode};
use vstd::prelude::*;

verus! {

/// The search radius that is used where none is configured: one kilometre.
pub const NEAREST_NODE_RADIUS_MM: u64 = 1_000_000;

/// Half the side of the window in which candidates are looked up where no
/// other is configured: 0.0001 degree.
pub const WINDOW_DELTA: u32 = 1000;

/// A node near a waypoint.
#[derive(Debug)]
pub struct Candidate {
    pub id: i64,
    pub lon: i32,
    pub lat: i32,
    /// The ids of the node's neighbours, where the store knows them.
    pub adjacency_list: Option<Vec<i64>>,
    /// How far the node lies from the waypoint.
    pub distance: u64,
}

/// The range of positions in which candidates are looked up, in units of
/// 1e-7 degree.
#[derive(Clone, Copy, Debug, PartialEq, Eq, Structural)]
pub struct Window {
    pub lat_min: i64,
    pub lat_max: i64,
    pub lon_min: i64,
    pub lon_max: i64,
}

/// The window that reaches `delta` to each side of `center`.
pub fn search_window(center: &Coordinate, delta: u32) -> (w: Window)
    ensures
        w.lat_min == center.latitude - delta,
        w.lat_max == center.latitude + delta,
        w.lon_min == center.longitude - delta,
        w.lon_max == center.longitude + delta,
{
    Window {
        lat_min: center.latitude as i64 - delta as i64,
        lat_max: center.latitude as i64 + delta as i64,
        lon_min: center.longitude as i64 - delta as i64,
        lon_max: center.longitude as i64 + delta as i64,
    }
}

/// A candidate can be chosen when it lies on the globe, its neighbours are
/// known and it is no farther from the waypoint than `radius`.
pub open spec fn eligible(c: Candidate, radius: u64) -> bool {
    &&& (Coordinate { latitude: c.lat, longitude: c.lon }).in_range()
    &&& c.adjacency_list is Some
    &&& c.distance <= radius
}

/// Candidate `i` is the one to choose: it is eligible, no eligible
/// candidate is nearer, and of those equally near it comes first.
pub open spec fn is_nearest(candidates: Seq<Candidate>, radius: u64, i: int) -> bool {
    &&& 0 <= i < candidates.len()
    &&& eligible(candidates[i], radius)
    &&& forall|j: int|
        0 <= j < candidates.len() && eligible(#[trigger] candidates[j], radius) ==> candidates[i].distance
            < candidates[j].distance || (candidates[i].distance == candidates[j].distance && i
            <= j)
}

/// No candidate is eligible.
pub open spec fn none_eligible(candidates: Seq<Candidate>, radius: u64) -> bool {
    forall|j: int| 0 <= j < candidates.len() ==> !eligible(#[trigger] candidates[j], radius)
}

/// The choice is unique.
pub proof fn lemma_nearest_is_unique(candidates: Seq<Candidate>, radius: u64, i: int, j: int)
    requires
        is_nearest(candidates, radius, i),
        is_nearest(candidates, radius, j),
    ensures
        i == j,
{
}

/// Whether the candidate can be chosen.
pub fn is_eligible(c: &Candidate, radius: u64) -> (ok: bool)
    ensures
        ok == eligible(*c, radius),
{
    let position = Coordinate { latitude: c.lat, longitude: c.lon };
    position.is_in_range() && c.adjacency_list.is_some() && c.distance <= radius
}

/// The index of the nearest eligible candidate, the first of them where
/// several are equally near, or `None` where no candidate is eligible.
pub fn find_closest_node(candidates: &Vec<Candidate>, radius: u64) -> (r: Option<usize>)
    ensures
        match r {
            Some(i) => is_nearest(candidates@, radius, i as int),
            None => none_eligible(candidates@, radius),
        },
{
    let mut best: Option<usize> = None;
    let mut i: usize = 0;
    while i < candidates.len()
        invariant
            i <= candidates.len(),
            match best {
                Some(b) => is_nearest(candidates@.take(i as int), radius, b as int),
                None => none_eligible(candidates@.take(i as int), radius),
            },
        decreases candidates.len() - i,
    {
        let ghost seen = candidates@.take(i as int);
        let ghost more = candidates@.take(i + 1);
        assert(forall|j: int| 0 <= j < i ==> seen[j] == #[trigger] more[j]);
        assert(more[i as int] == candidates@[i as int]);
        if is_eligible(&candidates[i], radius) {
            match best {
                Some(b) => {
                    assert(seen[b as int] == more[b as int]);
                    if candidates[i].distance < candidates[b].distance {
                        best = Some(i);
                    }
                },
                None => {
                    best = Some(i);
                },
            }
        } else {
            match best {
                Some(b) => {
                    assert(seen[b as int] == more[b as int]);
                },
                None => {},
            }
        }
        i = i + 1;
    }
    assert(candidates@.take(i as int) =~= candidates@);
    best
}

/// The node that the candidate stands for.
pub open spec fn node_of(c: Candidate) -> (i64, i32, i32, Seq<i64>) {
    (c.id, c.lon, c.lat, c.adjacency_list->Some_0@)
}

/// Resolves the waypoint with index `waypoint` from what the store
/// answered: `None` where the store failed, else the candidates it found.
///
/// A failed lookup is a store error. Otherwise the nearest eligible
/// candidate is the waypoint's node; without one the waypoint is not found.
pub fn get_node_by_lat_lon(
    reply: &Option<Vec<Candidate>>,
    radius: u64,
    waypoint: usize,
) -> (r: Result<RawNode, RouteError>)
    ensures
        match r {
            Ok(node) => reply is Some && exists|i: int|
                #[trigger] is_nearest(reply->Some_0@, radius, i) && (
                node.id,
                node.lon,
                node.lat,
                node.adjacency_list@,
            ) == node_of(reply->Some_0@[i]) && node.in_range(),
            Err(e) => if reply is None {
                e == (RouteError::StoreError { waypoint })
            } else {
                none_eligible(reply->Some_0@, radius) && e == (RouteError::NotFound { waypoint })
            },
        },
{
    let candidates = match reply {
        Some(c) => c,
        None => {
            return Err(RouteError::StoreError { waypoint });
        },
    };
    match find_closest_node(candidates, radius) {
        None => Err(RouteError::NotFound { waypoint }),
        Some(i) => {
            let c = &candidates[i];
            let adjacency_list = match &c.adjacency_list {
                Some(ids) => copy_ids(ids),
                None => Vec::new(),
            };
            let node = RawNode { id: c.id, lon: c.lon, lat: c.lat, adjacency_list };
            assert(is_nearest(candidates@, radius, i as int));
            Ok(node)
        },
    }
}

} // verus!
