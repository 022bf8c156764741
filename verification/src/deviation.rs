//! Telling whether a traveller has left a route.
//!
//! The traveller is on a segment of the route when the distances to the
//! segment's two ends add up to the segment's length, within a tolerance.
//! The distances are measured by the caller, in millimetres.

use crate::error::RouteError;
use crate::node::Coordinate;
use crate::stitch::{all_in_range, waypoints_in_range};
use vstd::prelude::*;

verus! {

/// The tolerance that is used where none is configured: one centimetre.
pub const DISTANCE_TOLERANCE_MM: u64 = 10;

/// The three distances that place a position relative to one segment.
#[derive(Clone, Copy, Debug, PartialEq, Eq, Structural)]
pub struct SegmentDistances {
    /// From the position to the segment's first end.
    pub to_start: u64,
    /// From the position to the segment's second end.
    pub to_end: u64,
    /// Between the segment's two ends.
    pub length: u64,
}

/// The position lies on the segment: the detour through it is no longer or
/// shorter than the segment by more than `tolerance`.
pub open spec fn on_segment(d: SegmentDistances, tolerance: u64) -> bool {
    let detour = d.to_start + d.to_end - d.length;
    -tolerance <= detour <= tolerance
}

/// Whether the position lies on the segment.
pub fn is_point_on_segment(d: &SegmentDistances, tolerance: u64) -> (on: bool)
    ensures
        on == on_segment(*d, tolerance),
{
    let sum: u128 = d.to_start as u128 + d.to_end as u128;
    let length: u128 = d.length as u128;
    if sum >= length {
        sum - length <= tolerance as u128
    } else {
        length - sum <= tolerance as u128
    }
}

/// What the first `n` measured segments say together: the traveller is on
/// the route as soon as one segment holds the position, and a segment that
/// could not be measured fails the check unless an earlier one holds it.
pub open spec fn verdict(measured: Seq<Option<SegmentDistances>>, tolerance: u64, n: nat) -> Result<
    bool,
    RouteError,
>
    decreases n,
{
    if n == 0 {
        Ok(true)
    } else {
        match verdict(measured, tolerance, (n - 1) as nat) {
            Ok(true) => match measured[n - 1] {
                None => Err(RouteError::Unmeasured { segment: (n - 1) as usize }),
                Some(d) => Ok(!on_segment(d, tolerance)),
            },
            decided => decided,
        }
    }
}

/// The request is well formed: a route of two points at least, all points
/// and the position on the globe, and one measurement for each segment.
pub open spec fn well_formed(
    route: Seq<Coordinate>,
    position: Coordinate,
    measured: Seq<Option<SegmentDistances>>,
) -> bool {
    &&& route.len() >= 2
    &&& waypoints_in_range(route)
    &&& position.in_range()
    &&& measured.len() == route.len() - 1
}

/// Whether the traveller at `position` has left `route`. `measured[i]`
/// holds the distances of the position to the segment between points `i`
/// and `i + 1`, or `None` where they could not be measured.
///
/// The answer is `false` where one segment holds the position and `true`
/// where none does. A request that is not well formed is invalid input.
pub fn check_deviation_from_route(
    route: &Vec<Coordinate>,
    position: &Coordinate,
    measured: &Vec<Option<SegmentDistances>>,
    tolerance: u64,
) -> (r: Result<bool, RouteError>)
    ensures
        r == (if well_formed(route@, *position, measured@) {
            verdict(measured@, tolerance, measured@.len())
        } else {
            Err(RouteError::InvalidInput)
        }),
{
    if route.len() < 2 || measured.len() != route.len() - 1 || !position.is_in_range()
        || !all_in_range(route) {
        return Err(RouteError::InvalidInput);
    }
    let mut i: usize = 0;
    while i < measured.len()
        invariant
            i <= measured.len(),
            well_formed(route@, *position, measured@),
            verdict(measured@, tolerance, i as nat) == Ok::<bool, RouteError>(true),
        decreases measured.len() - i,
    {
        match measured[i] {
            None => {
                proof {
                    lemma_verdict_decided(measured@, tolerance, (i + 1) as nat, measured@.len());
                }
                return Err(RouteError::Unmeasured { segment: i });
            },
            Some(d) => {
                if is_point_on_segment(&d, tolerance) {
                    proof {
                        lemma_verdict_decided(
                            measured@,
                            tolerance,
                            (i + 1) as nat,
                            measured@.len(),
                        );
                    }
                    return Ok(false);
                }
            },
        }
        i = i + 1;
    }
    Ok(true)
}

/// A verdict other than "off every segment so far" is final.
pub proof fn lemma_verdict_decided(
    measured: Seq<Option<SegmentDistances>>,
    tolerance: u64,
    n: nat,
    m: nat,
)
    requires
        n <= m,
        verdict(measured, tolerance, n) != Ok::<bool, RouteError>(true),
    ensures
        verdict(measured, tolerance, m) == verdict(measured, tolerance, n),
    decreases m,
{
    if n < m {
        lemma_verdict_decided(measured, tolerance, n, (m - 1) as nat);
    }
}

/// Segment `i` holds the position, and it and every segment before it
/// could be measured.
pub open spec fn holds_at(measured: Seq<Option<SegmentDistances>>, tolerance: u64, i: int) -> bool {
    &&& 0 <= i < measured.len()
    &&& measured[i] is Some
    &&& on_segment(measured[i]->Some_0, tolerance)
    &&& forall|j: int| 0 <= j < i ==> #[trigger] measured[j] is Some
}

/// The traveller has not deviated exactly when some segment holds the
/// position and every segment before it could be measured, and has
/// deviated exactly when every segment was measured and none holds it.
pub proof fn lemma_on_route(measured: Seq<Option<SegmentDistances>>, tolerance: u64, n: nat)
    requires
        n <= measured.len(),
    ensures
        verdict(measured, tolerance, n) == Ok::<bool, RouteError>(false) <==> exists|i: int|
            i < n && #[trigger] holds_at(measured, tolerance, i),
        verdict(measured, tolerance, n) == Ok::<bool, RouteError>(true) <==> forall|i: int|
            0 <= i < n ==> #[trigger] measured[i] is Some && !on_segment(
                measured[i]->Some_0,
                tolerance,
            ),
    decreases n,
{
    if n > 0 {
        lemma_on_route(measured, tolerance, (n - 1) as nat);
        let before = verdict(measured, tolerance, (n - 1) as nat);
        if before == Ok::<bool, RouteError>(true) {
            if measured[n - 1] is Some && on_segment(measured[n - 1]->Some_0, tolerance) {
                assert(holds_at(measured, tolerance, n - 1));
            }
        } else if before == Ok::<bool, RouteError>(false) {
            let i = choose|i: int| i < n - 1 && #[trigger] holds_at(measured, tolerance, i);
            assert(i < n && holds_at(measured, tolerance, i));
        } else {
            if exists|i: int| i < n && #[trigger] holds_at(measured, tolerance, i) {
                let i = choose|i: int| i < n && #[trigger] holds_at(measured, tolerance, i);
                if i == n - 1 {
                    lemma_all_measured(measured, tolerance, (n - 1) as nat);
                }
            }
        }
    }
}

/// Where every segment so far was measured, the verdict so far is no
/// failure.
proof fn lemma_all_measured(measured: Seq<Option<SegmentDistances>>, tolerance: u64, n: nat)
    requires
        n <= measured.len(),
        forall|j: int| 0 <= j < n ==> #[trigger] measured[j] is Some,
    ensures
        verdict(measured, tolerance, n) is Ok,
    decreases n,
{
    if n > 0 {
        lemma_all_measured(measured, tolerance, (n - 1) as nat);
    }
}

} // verus!
