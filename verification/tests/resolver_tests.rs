use shortest_path::error::RouteError;
use shortest_path::node::Coordinate;
use shortest_path::resolver::{
    find_closest_node, get_node_by_lat_lon, is_eligible, search_window, Candidate, Window,
    NEAREST_NODE_RADIUS_MM, WINDOW_DELTA,
};

fn candidate(id: i64, distance: u64) -> Candidate {
    Candidate { id, lon: 10, lat: 20, adjacency_list: Some(vec![id + 1]), distance }
}

#[test]
fn nearest_candidate_is_chosen() {
    let c = vec![candidate(1, 500), candidate(2, 120), candidate(3, 900)];
    assert_eq!(find_closest_node(&c, NEAREST_NODE_RADIUS_MM), Some(1));
    let node = get_node_by_lat_lon(&Some(c), NEAREST_NODE_RADIUS_MM, 0).unwrap();
    assert_eq!(node.id, 2);
    assert_eq!(node.lon, 10);
    assert_eq!(node.lat, 20);
    assert_eq!(node.adjacency_list, vec![3]);
}

#[test]
fn first_of_equally_near_candidates_is_chosen() {
    let c = vec![candidate(9, 300), candidate(4, 100), candidate(2, 100)];
    assert_eq!(find_closest_node(&c, NEAREST_NODE_RADIUS_MM), Some(1));
}

#[test]
fn candidate_beyond_the_radius_is_not_found() {
    let c = vec![candidate(1, 1_000_001)];
    assert_eq!(find_closest_node(&c, NEAREST_NODE_RADIUS_MM), None);
    assert!(matches!(
        get_node_by_lat_lon(&Some(c), NEAREST_NODE_RADIUS_MM, 3),
        Err(RouteError::NotFound { waypoint: 3 })
    ));
}

#[test]
fn candidate_on_the_radius_is_found() {
    let c = vec![candidate(1, 1_000_000)];
    assert_eq!(find_closest_node(&c, NEAREST_NODE_RADIUS_MM), Some(0));
}

#[test]
fn candidate_without_known_neighbours_is_passed_over() {
    let mut near = candidate(1, 5);
    near.adjacency_list = None;
    let c = vec![near, candidate(2, 50)];
    assert!(!is_eligible(&c[0], 100));
    assert!(is_eligible(&c[1], 100));
    assert_eq!(find_closest_node(&c, 100), Some(1));
}

#[test]
fn candidate_off_the_globe_is_passed_over() {
    let mut off = candidate(1, 5);
    off.lat = 900_000_001;
    assert_eq!(find_closest_node(&vec![off], 100), None);
}

#[test]
fn no_candidates_means_not_found() {
    assert!(matches!(
        get_node_by_lat_lon(&Some(Vec::new()), 100, 1),
        Err(RouteError::NotFound { waypoint: 1 })
    ));
}

#[test]
fn failed_lookup_is_a_store_error() {
    assert!(matches!(
        get_node_by_lat_lon(&None, 100, 2),
        Err(RouteError::StoreError { waypoint: 2 })
    ));
}

#[test]
fn window_reaches_delta_to_each_side() {
    let centre = Coordinate { latitude: 403_503_542, longitude: -746_630_728 };
    assert_eq!(
        search_window(&centre, WINDOW_DELTA),
        Window {
            lat_min: 403_502_542,
            lat_max: 403_504_542,
            lon_min: -746_631_728,
            lon_max: -746_629_728,
        }
    );
}

#[test]
fn window_at_the_edge_of_the_range_does_not_wrap() {
    let centre = Coordinate { latitude: i32::MAX, longitude: i32::MIN };
    let w = search_window(&centre, u32::MAX);
    assert_eq!(w.lat_max, i32::MAX as i64 + u32::MAX as i64);
    assert_eq!(w.lon_min, i32::MIN as i64 - u32::MAX as i64);
}
