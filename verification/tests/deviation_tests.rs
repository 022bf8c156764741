use geoutils::Location;
use shortest_path::deviation::{
    check_deviation_from_route, is_point_on_segment, SegmentDistances, DISTANCE_TOLERANCE_MM,
};
use shortest_path::error::RouteError;
use shortest_path::node::Coordinate;

const E7: f64 = 10_000_000.0;

fn millimetres(a: &Location, b: &Location) -> Option<u64> {
    match a.distance_to(b) {
        Ok(d) => Some((d.meters() * 1000.0).round() as u64),
        Err(_) => None,
    }
}

fn measure(point: &Location, start: &Location, end: &Location) -> Option<SegmentDistances> {
    Some(SegmentDistances {
        to_start: millimetres(point, start)?,
        to_end: millimetres(point, end)?,
        length: millimetres(start, end)?,
    })
}

fn coordinate(lat: f64, lon: f64) -> Coordinate {
    Coordinate { latitude: (lat * E7).round() as i32, longitude: (lon * E7).round() as i32 }
}

fn check(route: &[(f64, f64)], position: (f64, f64)) -> Result<bool, RouteError> {
    let coordinates: Vec<Coordinate> = route.iter().map(|p| coordinate(p.0, p.1)).collect();
    let here = Location::new(position.0, position.1);
    let mut measured = Vec::new();
    for pair in route.windows(2) {
        let start = Location::new(pair[0].0, pair[0].1);
        let end = Location::new(pair[1].0, pair[1].1);
        measured.push(measure(&here, &start, &end));
    }
    check_deviation_from_route(
        &coordinates,
        &coordinate(position.0, position.1),
        &measured,
        DISTANCE_TOLERANCE_MM,
    )
}

fn route() -> Vec<(f64, f64)> {
    vec![
        (40.351712, -74.663318),
        (40.35054, -74.6630122),
        (40.35061, -74.663041),
        (40.350941, -74.663187),
        (40.351348, -74.663366),
        (40.351399, -74.663384),
        (40.351485, -74.663399),
        (40.351579, -74.663392),
    ]
}

#[test]
fn test_is_point_on_segment() {
    let cases = vec![
        ((0.0, 0.0), (0.0, 0.0), (1.0, 1.0), true),
        ((0.0, 0.0), (0.0, 0.0), (1.0, 1.0), true),
        ((1.0, 1.0), (0.0, 0.0), (1.0, 1.0), true),
        ((2.0, 2.0), (0.0, 0.0), (1.0, 1.0), false),
        ((-1.0, -1.0), (0.0, 0.0), (1.0, 1.0), false),
        ((0.5, 1.0), (0.0, 0.0), (1.0, 1.0), false),
    ];
    for (i, (point, start, end, expected)) in cases.into_iter().enumerate() {
        let d = measure(
            &Location::new(point.0, point.1),
            &Location::new(start.0, start.1),
            &Location::new(end.0, end.1),
        )
        .unwrap();
        assert_eq!(is_point_on_segment(&d, DISTANCE_TOLERANCE_MM), expected, "case {}", i);
    }
}

#[test]
fn test_check_deviation_from_route() {
    assert_eq!(check(&route(), (40.351712, -74.663318)), Ok(false));
    assert_eq!(check(&route(), (40.352000, -74.664000)), Ok(true));
    assert_eq!(check(&[], (40.351712, -74.663318)), Err(RouteError::InvalidInput));
}

#[test]
fn midpoint_of_a_segment_is_on_the_route() {
    // Along the equator the midpoint in degrees is the midpoint on the ground.
    let r = vec![(0.0, 0.0), (0.0, 0.002)];
    assert_eq!(check(&r, (0.0, 0.001)), Ok(false));
}

#[test]
fn position_far_from_every_segment_has_deviated() {
    let r = vec![(0.0, 0.0), (0.0, 0.002), (0.0, 0.004)];
    assert_eq!(check(&r, (0.01, 0.002)), Ok(true));
}

#[test]
fn detour_within_the_tolerance_is_on_the_segment() {
    let d = SegmentDistances { to_start: 600, to_end: 410, length: 1000 };
    assert!(is_point_on_segment(&d, 10));
    assert!(!is_point_on_segment(&d, 9));
    let shorter = SegmentDistances { to_start: 500, to_end: 490, length: 1000 };
    assert!(is_point_on_segment(&shorter, 10));
    assert!(!is_point_on_segment(&shorter, 9));
}

#[test]
fn largest_distances_do_not_overflow() {
    let d = SegmentDistances { to_start: u64::MAX, to_end: u64::MAX, length: 0 };
    assert!(!is_point_on_segment(&d, u64::MAX));
    let e = SegmentDistances { to_start: u64::MAX, to_end: 5, length: u64::MAX };
    assert!(is_point_on_segment(&e, 5));
    assert!(!is_point_on_segment(&e, 4));
}

#[test]
fn route_of_one_point_is_invalid() {
    assert_eq!(check(&[(1.0, 1.0)], (1.0, 1.0)), Err(RouteError::InvalidInput));
}

#[test]
fn position_off_the_globe_is_invalid() {
    let r = vec![coordinate(0.0, 0.0), coordinate(0.0, 0.001)];
    let off = Coordinate { latitude: 900_000_001, longitude: 0 };
    let measured = vec![Some(SegmentDistances { to_start: 0, to_end: 0, length: 0 })];
    assert_eq!(check_deviation_from_route(&r, &off, &measured, 10), Err(RouteError::InvalidInput));
}

#[test]
fn measurements_must_match_the_segments() {
    let r = vec![coordinate(0.0, 0.0), coordinate(0.0, 0.001), coordinate(0.0, 0.002)];
    let here = coordinate(0.0, 0.0);
    let one = vec![Some(SegmentDistances { to_start: 0, to_end: 5, length: 5 })];
    assert_eq!(check_deviation_from_route(&r, &here, &one, 10), Err(RouteError::InvalidInput));
}

#[test]
fn unmeasured_segment_fails_unless_an_earlier_one_holds_the_position() {
    let r = vec![coordinate(0.0, 0.0), coordinate(0.0, 0.001), coordinate(0.0, 0.002)];
    let here = coordinate(0.0, 0.0);
    let on = Some(SegmentDistances { to_start: 0, to_end: 5, length: 5 });
    let off = Some(SegmentDistances { to_start: 50, to_end: 50, length: 5 });
    assert_eq!(check_deviation_from_route(&r, &here, &vec![on, None], 10), Ok(false));
    assert_eq!(
        check_deviation_from_route(&r, &here, &vec![off, None], 10),
        Err(RouteError::Unmeasured { segment: 1 })
    );
    assert_eq!(
        check_deviation_from_route(&r, &here, &vec![None, on], 10),
        Err(RouteError::Unmeasured { segment: 0 })
    );
    assert_eq!(check_deviation_from_route(&r, &here, &vec![off, off], 10), Ok(true));
    assert_eq!(check_deviation_from_route(&r, &here, &vec![off, on], 10), Ok(false));
}
