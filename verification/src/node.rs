//! Positions and nodes of the road network.
//!
//! A position is a pair of whole numbers in units of 1e-7 degree, the
//! resolution at which the network is stored.

use vstd::prelude::*;

verus! {

/// 90 degrees, the largest latitude.
pub const MAX_LATITUDE: i32 = 900_000_000;

/// 180 degrees, the largest longitude.
pub const MAX_LONGITUDE: i32 = 1_800_000_000;

/// A position on the globe.
#[derive(Clone, Copy, Debug, PartialEq, Eq, Structural)]
pub struct Coordinate {
    pub latitude: i32,
    pub longitude: i32,
}

impl Coordinate {
    /// The latitude lies between the poles and the longitude between the
    /// two sides of the antimeridian.
    pub open spec fn in_range(&self) -> bool {
        &&& -MAX_LATITUDE <= self.latitude <= MAX_LATITUDE
        &&& -MAX_LONGITUDE <= self.longitude <= MAX_LONGITUDE
    }

    /// Whether the position is one on the globe.
    pub fn is_in_range(&self) -> (ok: bool)
        ensures
            ok == self.in_range(),
    {
        -MAX_LATITUDE <= self.latitude && self.latitude <= MAX_LATITUDE && -MAX_LONGITUDE
            <= self.longitude && self.longitude <= MAX_LONGITUDE
    }
}

/// A node as the store hands it out: its id, its position and the ids of
/// its neighbours.
#[derive(Debug)]
pub struct RawNode {
    pub id: i64,
    pub lon: i32,
    pub lat: i32,
    pub adjacency_list: Vec<i64>,
}

impl RawNode {
    /// The node's position.
    pub open spec fn spec_position(&self) -> Coordinate {
        Coordinate { latitude: self.lat, longitude: self.lon }
    }

    /// The node lies on the globe.
    pub open spec fn in_range(&self) -> bool {
        self.spec_position().in_range()
    }

    /// The node's position.
    pub fn position(&self) -> (c: Coordinate)
        ensures
            c == self.spec_position(),
    {
        Coordinate { latitude: self.lat, longitude: self.lon }
    }

    /// Whether the node lies on the globe.
    pub fn is_in_range(&self) -> (ok: bool)
        ensures
            ok == self.in_range(),
    {
        self.position().is_in_range()
    }

    /// A copy of the node.
    pub fn duplicate(&self) -> (copy: RawNode)
        ensures
            copy.id == self.id,
            copy.lon == self.lon,
            copy.lat == self.lat,
            copy.adjacency_list@ == self.adjacency_list@,
    {
        RawNode {
            id: self.id,
            lon: self.lon,
            lat: self.lat,
            adjacency_list: copy_ids(&self.adjacency_list),
        }
    }
}

/// A copy of a list of ids.
pub fn copy_ids(ids: &Vec<i64>) -> (out: Vec<i64>)
    ensures
        out@ == ids@,
{
    let mut out: Vec<i64> = Vec::new();
    let mut i: usize = 0;
    while i < ids.len()
        invariant
            i <= ids.len(),
            out@ == ids@.take(i as int),
        decreases ids.len() - i,
    {
        out.push(ids[i]);
        assert(ids@.take(i + 1) =~= ids@.take(i as int).push(ids@[i as int]));
        i = i + 1;
    }
    assert(ids@.take(i as int) =~= ids@);
    out
}

} // verus!
