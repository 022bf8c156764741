use geoutils::Location;
use shortest_path::dijkstra::dijkstra;
use shortest_path::graph::Edge;
use shortest_path::node::{Coordinate, RawNode};
use shortest_path::search::{Action, Event, Outcome, Phase, Search};
use std::collections::HashMap;

const E7: f64 = 10_000_000.0;

fn node(id: i64, lat: f64, lon: f64, adjacency: &[i64]) -> RawNode {
    RawNode {
        id,
        lon: (lon * E7).round() as i32,
        lat: (lat * E7).round() as i32,
        adjacency_list: adjacency.to_vec(),
    }
}

fn millimetres(a: &RawNode, b: &RawNode) -> u64 {
    let from = Location::new(a.lat as f64 / E7, a.lon as f64 / E7);
    let to = Location::new(b.lat as f64 / E7, b.lon as f64 / E7);
    (from.distance_to(&to).unwrap().meters() * 1000.0).round() as u64
}

fn store(nodes: Vec<RawNode>) -> HashMap<i64, RawNode> {
    let mut m = HashMap::new();
    for n in nodes {
        m.insert(n.id, n);
    }
    m
}

/// Runs a search to its end against an in-memory store. `clock` gives the
/// time spent at each step; ids in `broken` cannot be fetched.
fn run(
    store: &HashMap<i64, RawNode>,
    source: i64,
    destination: i64,
    budget_ms: u64,
    clock: &mut dyn FnMut() -> u64,
    broken: &[i64],
) -> (Outcome, Vec<u64>) {
    let mut search = Search::new(store[&source].duplicate(), destination, budget_ms);
    let mut popped: Vec<u64> = Vec::new();
    let mut event = Event::Tick;
    loop {
        let before = search.last_cost();
        let action = search.step(event, clock());
        assert!(search.last_cost() >= before);
        popped.push(search.last_cost());
        match action {
            Action::Fetch { from, neighbor } => {
                event = match store.get(&neighbor) {
                    Some(n) if !broken.contains(&neighbor) => Event::Neighbor {
                        node: n.duplicate(),
                        weight: millimetres(&store[&from], n),
                    },
                    _ => Event::Unavailable,
                };
            }
            Action::Continue => {
                event = Event::Tick;
            }
            Action::Finish => {
                return (search.outcome(), popped);
            }
        }
    }
}

fn line_of_three() -> HashMap<i64, RawNode> {
    store(vec![
        node(1, 0.0, 0.0, &[2]),
        node(2, 0.0, 0.0001, &[1, 3]),
        node(3, 0.0, 0.0002, &[2]),
    ])
}

#[test]
fn three_nodes_in_a_line_are_crossed_in_order() {
    let s = line_of_three();
    let (outcome, _) = run(&s, 1, 3, 10_000, &mut || 0, &[]);
    assert_eq!(outcome.phase, Phase::Found);
    assert_eq!(outcome.path, vec![1, 2, 3]);
    let hops = millimetres(&s[&1], &s[&2]) + millimetres(&s[&2], &s[&3]);
    assert_eq!(outcome.cost, hops);
    // Two hops of 0.0001 degree of longitude on the equator: about 11.13 m each.
    assert_eq!(outcome.cost, 22264);
    assert_eq!(
        outcome.coordinates,
        vec![
            Coordinate { latitude: 0, longitude: 0 },
            Coordinate { latitude: 0, longitude: 1000 },
            Coordinate { latitude: 0, longitude: 2000 },
        ]
    );
}

#[test]
fn cheaper_detour_beats_the_direct_link() {
    // 1 and 4 are linked directly by a long way round through 5, and by a
    // short chain through 2 and 3.
    let s = store(vec![
        node(1, 0.0, 0.0, &[5, 2]),
        node(2, 0.0, 0.0001, &[1, 3]),
        node(3, 0.0, 0.0002, &[2, 4]),
        node(4, 0.0, 0.0003, &[3, 5]),
        node(5, 0.01, 0.00015, &[1, 4]),
    ]);
    let (outcome, popped) = run(&s, 1, 4, 10_000, &mut || 0, &[]);
    assert_eq!(outcome.phase, Phase::Found);
    assert_eq!(outcome.path, vec![1, 2, 3, 4]);
    let expected = millimetres(&s[&1], &s[&2])
        + millimetres(&s[&2], &s[&3])
        + millimetres(&s[&3], &s[&4]);
    assert_eq!(outcome.cost, expected);
    for pair in popped.windows(2) {
        assert!(pair[0] <= pair[1]);
    }
}

#[test]
fn source_equal_to_destination_is_found_at_once() {
    let s = line_of_three();
    let (outcome, _) = run(&s, 2, 2, 10_000, &mut || 0, &[]);
    assert_eq!(outcome.phase, Phase::Found);
    assert_eq!(outcome.path, vec![2]);
    assert_eq!(outcome.cost, 0);
}

#[test]
fn disconnected_destination_exhausts_the_search() {
    let s = store(vec![
        node(1, 0.0, 0.0, &[2]),
        node(2, 0.0, 0.0001, &[1]),
        node(3, 0.0, 0.0002, &[4]),
        node(4, 0.0, 0.0003, &[3]),
    ]);
    let (outcome, _) = run(&s, 1, 4, 10_000, &mut || 0, &[]);
    assert_eq!(outcome.phase, Phase::Exhausted);
    assert!(outcome.path.is_empty());
    assert!(outcome.coordinates.is_empty());
    assert_eq!(outcome.cost, 0);
}

#[test]
fn tiny_budget_yields_the_path_to_the_node_settled_last() {
    let mut nodes = Vec::new();
    let n: i64 = 200;
    for i in 0..n {
        let mut adjacency = Vec::new();
        if i > 0 {
            adjacency.push(i - 1);
        }
        if i + 1 < n {
            adjacency.push(i + 1);
        }
        nodes.push(node(i, 0.0, 0.0001 * i as f64, &adjacency));
    }
    let s = store(nodes);
    let mut ticks: u64 = 0;
    let mut clock = || {
        ticks += 1;
        ticks
    };
    let (outcome, _) = run(&s, 0, n - 1, 40, &mut clock, &[]);
    assert_eq!(outcome.phase, Phase::TimedOut);
    assert!(!outcome.path.is_empty());
    assert_eq!(outcome.path[0], 0);
    let last = *outcome.path.last().unwrap();
    assert!(last != n - 1);
    assert!(last > 0);
    let expected: Vec<i64> = (0..=last).collect();
    assert_eq!(outcome.path, expected);
}

#[test]
fn budget_spent_before_the_first_step_yields_the_source_alone() {
    let s = line_of_three();
    let (outcome, _) = run(&s, 1, 3, 10, &mut || 11, &[]);
    assert_eq!(outcome.phase, Phase::TimedOut);
    assert_eq!(outcome.path, vec![1]);
    assert_eq!(outcome.cost, 0);
}

#[test]
fn budget_is_met_when_the_time_spent_equals_it() {
    let s = line_of_three();
    let (outcome, _) = run(&s, 1, 3, 10, &mut || 10, &[]);
    assert_eq!(outcome.phase, Phase::Found);
}

#[test]
fn unavailable_neighbour_is_skipped() {
    // 2 cannot be fetched, so the way leads through 5.
    let s = store(vec![
        node(1, 0.0, 0.0, &[2, 5]),
        node(2, 0.0, 0.0001, &[1, 3]),
        node(3, 0.0, 0.0002, &[2, 5]),
        node(5, 0.001, 0.0001, &[1, 3]),
    ]);
    let (outcome, _) = run(&s, 1, 3, 10_000, &mut || 0, &[2]);
    assert_eq!(outcome.phase, Phase::Found);
    assert_eq!(outcome.path, vec![1, 5, 3]);
}

#[test]
fn neighbour_missing_from_the_store_is_skipped() {
    let s = store(vec![
        node(1, 0.0, 0.0, &[99, 2]),
        node(2, 0.0, 0.0001, &[1]),
    ]);
    let (outcome, _) = run(&s, 1, 2, 10_000, &mut || 0, &[]);
    assert_eq!(outcome.phase, Phase::Found);
    assert_eq!(outcome.path, vec![1, 2]);
}

#[test]
fn steps_follow_the_protocol_one_move_at_a_time() {
    let s = line_of_three();
    let mut search = Search::new(s[&1].duplicate(), 3, 1000);
    assert_eq!(search.phase(), Phase::Searching);
    assert_eq!(search.destination(), 3);
    // First step pops the source and asks for its only neighbour.
    assert_eq!(search.step(Event::Tick, 0), Action::Fetch { from: 1, neighbor: 2 });
    // A tick leaves the request pending.
    assert_eq!(search.step(Event::Tick, 0), Action::Fetch { from: 1, neighbor: 2 });
    // The reply is relaxed; the source has no neighbour left, so node 2 is popped.
    let reply = Event::Neighbor { node: s[&2].duplicate(), weight: 5 };
    assert_eq!(search.step(reply, 1), Action::Fetch { from: 2, neighbor: 1 });
    assert_eq!(search.last_cost(), 5);
    // Going back to the source does not improve it.
    let back = Event::Neighbor { node: s[&1].duplicate(), weight: 5 };
    assert_eq!(search.step(back, 2), Action::Fetch { from: 2, neighbor: 3 });
    let on = Event::Neighbor { node: s[&3].duplicate(), weight: 7 };
    assert_eq!(search.step(on, 3), Action::Finish);
    assert_eq!(search.phase(), Phase::Found);
    let outcome = search.outcome();
    assert_eq!(outcome.path, vec![1, 2, 3]);
    assert_eq!(outcome.cost, 12);
    // A finished search stays finished.
    assert_eq!(search.step(Event::Unavailable, 5000), Action::Finish);
    assert_eq!(search.phase(), Phase::Found);
}

#[test]
fn stale_entry_is_dropped_with_a_continue() {
    // 1 -> 2 costs 10 directly and 2 + 3 through node 4, so the entry
    // (10, 2) queued first is stale when it is popped.
    let n1 = node(1, 0.0, 0.0, &[2, 4]);
    let n2 = node(2, 0.0, 0.0, &[]);
    let n4 = node(4, 0.0, 0.0, &[2]);
    let mut search = Search::new(n1.duplicate(), 77, 1000);
    assert_eq!(search.step(Event::Tick, 0), Action::Fetch { from: 1, neighbor: 2 });
    let e = Event::Neighbor { node: n2.duplicate(), weight: 10 };
    assert_eq!(search.step(e, 0), Action::Fetch { from: 1, neighbor: 4 });
    let e = Event::Neighbor { node: n4.duplicate(), weight: 2 };
    assert_eq!(search.step(e, 0), Action::Fetch { from: 4, neighbor: 2 });
    let e = Event::Neighbor { node: n2.duplicate(), weight: 3 };
    // Node 2 is popped at cost 5; it has no neighbours.
    assert_eq!(search.step(e, 0), Action::Continue);
    assert_eq!(search.last_cost(), 5);
    // The stale entry (10, 2) is dropped.
    assert_eq!(search.step(Event::Tick, 0), Action::Continue);
    assert_eq!(search.last_cost(), 10);
    assert_eq!(search.step(Event::Tick, 0), Action::Finish);
    assert_eq!(search.phase(), Phase::Exhausted);
    assert!(search.outcome().path.is_empty());
}

#[test]
fn timeout_in_the_middle_of_an_expansion_ignores_the_reply() {
    let s = line_of_three();
    let mut search = Search::new(s[&1].duplicate(), 3, 100);
    assert_eq!(search.step(Event::Tick, 0), Action::Fetch { from: 1, neighbor: 2 });
    let late = Event::Neighbor { node: s[&2].duplicate(), weight: 5 };
    assert_eq!(search.step(late, 101), Action::Finish);
    assert_eq!(search.phase(), Phase::TimedOut);
    let outcome = search.outcome();
    assert_eq!(outcome.path, vec![1]);
    assert_eq!(search.position_of(2), None);
    assert_eq!(search.position_of(1), Some(Coordinate { latitude: 0, longitude: 0 }));
}

#[test]
fn cost_beyond_the_representable_is_no_improvement() {
    let n1 = node(1, 0.0, 0.0, &[2]);
    let n2 = node(2, 0.0, 0.0, &[3]);
    let n3 = node(3, 0.0, 0.0, &[]);
    let mut search = Search::new(n1.duplicate(), 3, 1000);
    assert_eq!(search.step(Event::Tick, 0), Action::Fetch { from: 1, neighbor: 2 });
    let e = Event::Neighbor { node: n2.duplicate(), weight: u64::MAX };
    assert_eq!(search.step(e, 0), Action::Fetch { from: 2, neighbor: 3 });
    let e = Event::Neighbor { node: n3.duplicate(), weight: 1 };
    assert_eq!(search.step(e, 0), Action::Finish);
    assert_eq!(search.phase(), Phase::Exhausted);
}

#[test]
fn duplicate_copies_a_node() {
    let n = node(8, 1.5, -2.5, &[1, 2, 3]);
    let c = n.duplicate();
    assert_eq!(c.id, 8);
    assert_eq!(c.lat, 15_000_000);
    assert_eq!(c.lon, -25_000_000);
    assert_eq!(c.adjacency_list, vec![1, 2, 3]);
    assert!(c.is_in_range());
    assert_eq!(c.position(), Coordinate { latitude: 15_000_000, longitude: -25_000_000 });
}

#[test]
fn positions_off_the_globe_are_out_of_range() {
    assert!(Coordinate { latitude: 900_000_000, longitude: -1_800_000_000 }.is_in_range());
    assert!(!Coordinate { latitude: 900_000_001, longitude: 0 }.is_in_range());
    assert!(!Coordinate { latitude: 0, longitude: 1_800_000_001 }.is_in_range());
    assert!(!Coordinate { latitude: -900_000_001, longitude: 0 }.is_in_range());
}

#[test]
fn search_on_a_grid_agrees_with_the_search_in_memory() {
    // A 6 x 6 grid with a few cells missing.
    let side: i64 = 6;
    let missing = [7i64, 8, 14, 21, 27, 28];
    let id = |r: i64, c: i64| r * side + c;
    let mut nodes = Vec::new();
    for r in 0..side {
        for c in 0..side {
            if missing.contains(&id(r, c)) {
                continue;
            }
            let mut adjacency = Vec::new();
            for (dr, dc) in [(0i64, 1i64), (1, 0), (0, -1), (-1, 0)] {
                let (nr, nc) = (r + dr, c + dc);
                if nr >= 0 && nr < side && nc >= 0 && nc < side {
                    adjacency.push(id(nr, nc));
                }
            }
            nodes.push(node(id(r, c), 0.0003 * r as f64, 0.0002 * c as f64 + 0.00001 * r as f64, &adjacency));
        }
    }
    let s = store(nodes);
    let mut edges = Vec::new();
    for n in s.values() {
        for m in &n.adjacency_list {
            if let Some(other) = s.get(m) {
                edges.push(Edge {
                    from: n.id as i32,
                    to: other.id as i32,
                    weight: millimetres(n, other) as i32,
                });
            }
        }
    }
    for destination in [35i64, 5, 30, 13, 0] {
        let (outcome, popped) = run(&s, 0, destination, 10_000, &mut || 0, &[]);
        let route = dijkstra(&edges, 0, destination as i32);
        assert_eq!(outcome.phase, Phase::Found);
        assert_eq!(outcome.cost, route.distance);
        assert_eq!(outcome.path[0], 0);
        assert_eq!(*outcome.path.last().unwrap(), destination);
        let mut sum: u64 = 0;
        for pair in outcome.path.windows(2) {
            assert!(s[&pair[0]].adjacency_list.contains(&pair[1]));
            sum += millimetres(&s[&pair[0]], &s[&pair[1]]);
        }
        assert_eq!(sum, outcome.cost);
        for pair in popped.windows(2) {
            assert!(pair[0] <= pair[1]);
        }
    }
}

#[test]
fn neighbour_off_the_globe_is_skipped() {
    let n1 = node(1, 0.0, 0.0, &[2, 3]);
    let mut off = node(2, 0.0, 0.0, &[3]);
    off.lat = 900_000_001;
    let n3 = node(3, 0.0, 0.0001, &[]);
    let mut search = Search::new(n1.duplicate(), 3, 1000);
    assert_eq!(search.step(Event::Tick, 0), Action::Fetch { from: 1, neighbor: 2 });
    let e = Event::Neighbor { node: off, weight: 1 };
    assert_eq!(search.step(e, 0), Action::Fetch { from: 1, neighbor: 3 });
    assert_eq!(search.position_of(2), None);
    let e = Event::Neighbor { node: n3.duplicate(), weight: 50 };
    assert_eq!(search.step(e, 0), Action::Finish);
    let outcome = search.outcome();
    assert_eq!(outcome.phase, Phase::Found);
    assert_eq!(outcome.path, vec![1, 3]);
    assert_eq!(outcome.cost, 50);
}

#[test]
fn reply_that_nobody_asked_for_is_ignored() {
    let n1 = node(1, 0.0, 0.0, &[]);
    let n2 = node(2, 0.0, 0.0001, &[]);
    let mut search = Search::new(n1.duplicate(), 2, 1000);
    // Nothing has been asked for yet: the neighbour is not taken in.
    let e = Event::Neighbor { node: n2.duplicate(), weight: 1 };
    assert_eq!(search.step(e, 0), Action::Continue);
    assert_eq!(search.position_of(2), None);
    assert_eq!(search.step(Event::Unavailable, 0), Action::Finish);
    assert_eq!(search.phase(), Phase::Exhausted);
}
