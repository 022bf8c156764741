//! Joining the paths of consecutive segments into one route.

use crate::error::RouteError;
use crate::node::Coordinate;
use vstd::prelude::*;

verus! {

/// The route made of `segments` in order: the first in full, every later
/// one without its first node, which is the last node of the one before.
pub open spec fn stitched(segments: Seq<Seq<i64>>) -> Seq<i64>
    decreases segments.len(),
{
    if segments.len() == 0 {
        Seq::<i64>::empty()
    } else if segments.len() == 1 {
        segments[0]
    } else {
        stitched(segments.drop_last()) + segments.last().skip(1)
    }
}

/// Every waypoint lies on the globe.
pub open spec fn waypoints_in_range(waypoints: Seq<Coordinate>) -> bool {
    forall|i: int| 0 <= i < waypoints.len() ==> (#[trigger] waypoints[i]).in_range()
}

/// Whether every waypoint lies on the globe.
pub fn all_in_range(waypoints: &Vec<Coordinate>) -> (ok: bool)
    ensures
        ok == waypoints_in_range(waypoints@),
{
    let mut i: usize = 0;
    while i < waypoints.len()
        invariant
            i <= waypoints.len(),
            forall|k: int| 0 <= k < i ==> (#[trigger] waypoints@[k]).in_range(),
        decreases waypoints.len() - i,
    {
        if !waypoints[i].is_in_range() {
            return false;
        }
        i = i + 1;
    }
    true
}

/// A route under construction. Its view is the list of segments joined so
/// far.
pub struct Stitcher {
    expected: usize,
    path: Vec<i64>,
    joined: Ghost<Seq<Seq<i64>>>,
    count: usize,
}

impl View for Stitcher {
    type V = Seq<Seq<i64>>;

    closed spec fn view(&self) -> Seq<Seq<i64>> {
        self.joined@
    }
}

impl Stitcher {
    /// The number of segments of the route: one less than its waypoints.
    pub closed spec fn expected(&self) -> nat {
        self.expected as nat
    }

    /// The route holds the segments joined so far, and no more of them than
    /// it has room for.
    pub closed spec fn wf(&self) -> bool {
        &&& self.path@ == stitched(self.joined@)
        &&& self.count == self.joined@.len()
        &&& self.count <= self.expected
        &&& forall|i: int| 0 <= i < self.joined@.len() ==> (#[trigger] self.joined@[i]).len() > 0
    }

    /// Begins the route through `waypoints`. A route needs two waypoints
    /// at least, all of them on the globe.
    pub fn new(waypoints: &Vec<Coordinate>) -> (r: Result<Stitcher, RouteError>)
        ensures
            match r {
                Ok(s) => {
                    &&& waypoints@.len() >= 2
                    &&& waypoints_in_range(waypoints@)
                    &&& s.wf()
                    &&& s@ == Seq::<Seq<i64>>::empty()
                    &&& s.expected() == waypoints@.len() - 1
                },
                Err(e) => e == RouteError::InvalidInput && (waypoints@.len() < 2
                    || !waypoints_in_range(waypoints@)),
            },
    {
        if waypoints.len() < 2 || !all_in_range(waypoints) {
            return Err(RouteError::InvalidInput);
        }
        Ok(
            Stitcher {
                expected: waypoints.len() - 1,
                path: Vec::new(),
                joined: Ghost(Seq::<Seq<i64>>::empty()),
                count: 0,
            },
        )
    }

    /// The index of the segment that is joined next.
    pub fn next_segment(&self) -> (i: usize)
        requires
            self.wf(),
        ensures
            i == self@.len(),
    {
        self.count
    }

    /// Whether every segment of the route has been joined.
    pub fn is_complete(&self) -> (done: bool)
        requires
            self.wf(),
        ensures
            done == (self@.len() == self.expected()),
    {
        self.count == self.expected
    }

    /// Joins the path of the next segment. An empty path means that the
    /// segment's ends are not connected: the route fails with the segment's
    /// index. A segment beyond the last waypoint is invalid input. Either
    /// way the route stays as it was.
    pub fn append(&mut self, segment: &Vec<i64>) -> (r: Result<(), RouteError>)
        requires
            old(self).wf(),
        ensures
            final(self).wf(),
            final(self).expected() == old(self).expected(),
            match r {
                Ok(()) => {
                    &&& old(self)@.len() < old(self).expected()
                    &&& segment@.len() > 0
                    &&& final(self)@ == old(self)@.push(segment@)
                },
                Err(e) => {
                    &&& final(self)@ == old(self)@
                    &&& if old(self)@.len() == old(self).expected() {
                        e == RouteError::InvalidInput
                    } else {
                        segment@.len() == 0 && e == (RouteError::NoPathFound {
                            segment: old(self)@.len() as usize,
                        })
                    }
                },
            },
    {
        if self.count == self.expected {
            return Err(RouteError::InvalidInput);
        }
        if segment.len() == 0 {
            return Err(RouteError::NoPathFound { segment: self.count });
        }
        let first: usize = if self.count == 0 {
            0
        } else {
            1
        };
        let mut i: usize = first;
        while i < segment.len()
            invariant
                first <= i <= segment.len(),
                self.path@ == old(self).path@ + segment@.subrange(first as int, i as int),
                self.joined == old(self).joined,
                self.count == old(self).count,
                self.expected == old(self).expected,
            decreases segment.len() - i,
        {
            self.path.push(segment[i]);
            assert(segment@.subrange(first as int, i + 1) =~= segment@.subrange(
                first as int,
                i as int,
            ).push(segment@[i as int]));
            i = i + 1;
        }
        proof {
            let all = self.joined@.push(segment@);
            assert(all.drop_last() =~= self.joined@);
            assert(segment@.subrange(1, segment@.len() as int) =~= segment@.skip(1));
            assert(segment@.subrange(0, segment@.len() as int) =~= segment@);
            if self.count == 0 {
                assert(old(self).path@ =~= Seq::<i64>::empty());
                assert(self.path@ =~= segment@);
            }
        }
        self.joined = Ghost(self.joined@.push(segment@));
        self.count = self.count + 1;
        Ok(())
    }

    /// The finished route, or invalid input while segments are missing.
    pub fn finish(self) -> (r: Result<Vec<i64>, RouteError>)
        requires
            self.wf(),
        ensures
            match r {
                Ok(path) => self@.len() == self.expected() && path@ == stitched(self@),
                Err(e) => e == RouteError::InvalidInput && self@.len() < self.expected(),
            },
    {
        if self.count == self.expected {
            Ok(self.path)
        } else {
            Err(RouteError::InvalidInput)
        }
    }
}

/// No segment is empty, and every segment but the first begins where the
/// one before it ends.
pub open spec fn chained(segments: Seq<Seq<i64>>) -> bool {
    &&& forall|i: int| 0 <= i < segments.len() ==> (#[trigger] segments[i]).len() > 0
    &&& forall|i: int|
        0 <= i < segments.len() - 1 ==> (#[trigger] segments[i]).last() == segments[i + 1][0]
}

/// The number of nodes of all segments together, less one for each
/// junction.
pub open spec fn joined_len(segments: Seq<Seq<i64>>) -> int
    decreases segments.len(),
{
    if segments.len() == 0 {
        0
    } else if segments.len() == 1 {
        segments[0].len() as int
    } else {
        joined_len(segments.drop_last()) + segments.last().len() - 1
    }
}

/// A route of chained segments begins where its first segment begins, ends
/// where its last segment ends, and holds each junction once: it has one
/// node for each node of its segments, less one for each junction.
pub proof fn lemma_stitched_shape(segments: Seq<Seq<i64>>)
    requires
        segments.len() > 0,
        chained(segments),
    ensures
        stitched(segments).len() == joined_len(segments),
        stitched(segments).len() >= segments[0].len(),
        stitched(segments).subrange(0, segments[0].len() as int) == segments[0],
        stitched(segments)[0] == segments[0][0],
        stitched(segments).last() == segments.last().last(),
    decreases segments.len(),
{
    if segments.len() == 1 {
        assert(segments[0].subrange(0, segments[0].len() as int) =~= segments[0]);
    } else {
        let front = segments.drop_last();
        assert forall|i: int| 0 <= i < front.len() implies (#[trigger] front[i]).len() > 0 by {
            assert(front[i] == segments[i]);
        }
        assert forall|i: int| 0 <= i < front.len() - 1 implies (#[trigger] front[i]).last()
            == front[i + 1][0] by {
            assert(front[i] == segments[i]);
            assert(front[i + 1] == segments[i + 1]);
        }
        lemma_stitched_shape(front);
        assert(front[0] == segments[0]);
        assert(front.last() == segments[segments.len() - 2]);
        assert(segments[segments.len() - 2].last() == segments[segments.len() - 2 + 1][0]);
        let s = stitched(segments);
        assert(s.subrange(0, segments[0].len() as int) =~= stitched(front).subrange(
            0,
            segments[0].len() as int,
        ));
    }
}

/// Joining two segments that meet at a junction keeps the junction once:
/// where neither segment visits a node twice, the junction stands at the
/// end of the first segment and nowhere else in the second's part.
pub proof fn lemma_junction_once(first: Seq<i64>, second: Seq<i64>)
    requires
        first.len() > 0,
        second.len() > 0,
        first.no_duplicates(),
        second.no_duplicates(),
        first.last() == second[0],
    ensures
        ({
            let route = stitched(seq![first, second]);
            let junction = first.last();
            &&& route.len() == first.len() + second.len() - 1
            &&& route[first.len() - 1] == junction
            &&& forall|i: int|
                0 <= i < route.len() && #[trigger] route[i] == junction ==> i == first.len() - 1
        }),
{
    let segments = seq![first, second];
    assert(segments.drop_last() =~= seq![first]);
    assert(segments.last() == second);
    assert(stitched(seq![first]) == first);
    let route = stitched(segments);
    assert(route =~= first + second.skip(1));
    let junction = first.last();
    assert forall|i: int| 0 <= i < route.len() && #[trigger] route[i] == junction implies i
        == first.len() - 1 by {
        if i < first.len() {
            assert(first[i] == first[first.len() - 1]);
        } else {
            let k = i - first.len() + 1;
            assert(route[i] == second[k]);
            assert(second[k] == second[0]);
        }
    }
}

} // verus!
