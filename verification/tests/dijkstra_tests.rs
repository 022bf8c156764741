use shortest_path::dijkstra::dijkstra;
use shortest_path::graph::{get_adjacency_nodes, weights_are_valid, Edge};

fn edge(from: i32, to: i32, weight: i32) -> Edge {
    Edge { weight, from, to }
}

#[test]
fn finds_the_cheapest_of_several_paths() {
    let edges = vec![edge(0, 1, 4), edge(0, 2, 1), edge(2, 1, 2), edge(1, 3, 5)];
    let route = dijkstra(&edges, 0, 3);
    assert_eq!(route.path, vec![0, 2, 1, 3]);
    assert_eq!(route.distance, 8);
}

#[test]
fn path_weights_add_up_to_the_distance() {
    let edges = vec![
        edge(1, 2, 7),
        edge(1, 3, 9),
        edge(1, 6, 14),
        edge(2, 3, 10),
        edge(2, 4, 15),
        edge(3, 4, 11),
        edge(3, 6, 2),
        edge(4, 5, 6),
        edge(5, 6, 9),
    ];
    let route = dijkstra(&edges, 1, 5);
    assert_eq!(route.path, vec![1, 3, 6, 5]);
    assert_eq!(route.distance, 20);
    let mut sum: u64 = 0;
    for pair in route.path.windows(2) {
        let hops = get_adjacency_nodes(&edges, pair[0]);
        let w = hops.iter().filter(|h| h.to == pair[1]).map(|h| h.weight).min().unwrap();
        sum += w as u64;
    }
    assert_eq!(sum, route.distance);
}

#[test]
fn edges_are_travelled_both_ways() {
    let edges = vec![edge(1, 0, 3), edge(2, 1, 4)];
    let route = dijkstra(&edges, 0, 2);
    assert_eq!(route.path, vec![0, 1, 2]);
    assert_eq!(route.distance, 7);
}

#[test]
fn disconnected_vertices_give_an_empty_path() {
    let edges = vec![edge(0, 1, 1), edge(2, 3, 1)];
    let route = dijkstra(&edges, 0, 3);
    assert!(route.path.is_empty());
    assert_eq!(route.distance, 0);
}

#[test]
fn unknown_destination_gives_an_empty_path() {
    let edges = vec![edge(0, 1, 1)];
    let route = dijkstra(&edges, 0, 42);
    assert!(route.path.is_empty());
}

#[test]
fn start_equal_to_end_is_a_path_of_one_vertex() {
    let edges = vec![edge(0, 1, 1)];
    let route = dijkstra(&edges, 1, 1);
    assert_eq!(route.path, vec![1]);
    assert_eq!(route.distance, 0);
    let none: Vec<Edge> = Vec::new();
    let alone = dijkstra(&none, 5, 5);
    assert_eq!(alone.path, vec![5]);
}

#[test]
fn lighter_of_two_parallel_edges_is_taken() {
    let edges = vec![edge(0, 1, 9), edge(0, 1, 2), edge(1, 2, 1)];
    let route = dijkstra(&edges, 0, 2);
    assert_eq!(route.path, vec![0, 1, 2]);
    assert_eq!(route.distance, 3);
}

#[test]
fn zero_weight_edges_cost_nothing() {
    let edges = vec![edge(0, 1, 0), edge(1, 2, 0), edge(0, 2, 1)];
    let route = dijkstra(&edges, 0, 2);
    assert_eq!(route.distance, 0);
    assert_eq!(route.path, vec![0, 1, 2]);
}

#[test]
fn large_weights_do_not_overflow() {
    let edges = vec![edge(0, 1, i32::MAX), edge(1, 2, i32::MAX), edge(2, 3, i32::MAX)];
    let route = dijkstra(&edges, 0, 3);
    assert_eq!(route.path, vec![0, 1, 2, 3]);
    assert_eq!(route.distance, 3 * (i32::MAX as u64));
}

#[test]
fn negative_vertex_ids_are_vertices_like_any_other() {
    let edges = vec![edge(-5, i32::MIN, 2), edge(i32::MIN, i32::MAX, 3)];
    let route = dijkstra(&edges, -5, i32::MAX);
    assert_eq!(route.path, vec![-5, i32::MIN, i32::MAX]);
    assert_eq!(route.distance, 5);
}

#[test]
fn adjacency_lists_hops_that_leave_the_vertex() {
    let edges = vec![edge(1, 2, 10), edge(3, 1, 20), edge(2, 3, 30)];
    let hops = get_adjacency_nodes(&edges, 1);
    assert_eq!(hops, vec![edge(1, 2, 10), edge(1, 3, 20)]);
    assert!(get_adjacency_nodes(&edges, 9).is_empty());
}

#[test]
fn adjacency_lists_a_self_loop_twice() {
    let edges = vec![edge(4, 4, 1)];
    assert_eq!(get_adjacency_nodes(&edges, 4), vec![edge(4, 4, 1), edge(4, 4, 1)]);
}

#[test]
fn weights_are_valid_rejects_a_negative_weight() {
    assert!(weights_are_valid(&vec![edge(0, 1, 0), edge(1, 2, 5)]));
    assert!(!weights_are_valid(&vec![edge(0, 1, 0), edge(1, 2, -1)]));
    assert!(weights_are_valid(&Vec::new()));
}

/// Cheapest costs from `start` by repeated relaxation of every edge.
fn cheapest_costs(edges: &Vec<Edge>, start: i32, vertices: i32) -> Vec<Option<u64>> {
    let mut cost: Vec<Option<u64>> = vec![None; vertices as usize];
    cost[start as usize] = Some(0);
    for _ in 0..vertices {
        for e in edges {
            for (a, b) in [(e.from, e.to), (e.to, e.from)] {
                if let Some(c) = cost[a as usize] {
                    let through = c + e.weight as u64;
                    if cost[b as usize].map_or(true, |known| through < known) {
                        cost[b as usize] = Some(through);
                    }
                }
            }
        }
    }
    cost
}

#[test]
fn distance_is_the_cheapest_cost_on_generated_graphs() {
    let mut seed: u64 = 0x9E3779B97F4A7C15;
    let mut next = move |bound: u64| {
        seed ^= seed << 13;
        seed ^= seed >> 7;
        seed ^= seed << 17;
        seed % bound
    };
    for round in 0..40 {
        let vertices: i32 = 2 + (round % 9);
        let count = next(3 * vertices as u64) as usize;
        let mut edges = Vec::new();
        for _ in 0..count {
            edges.push(edge(
                next(vertices as u64) as i32,
                next(vertices as u64) as i32,
                next(20) as i32,
            ));
        }
        assert!(weights_are_valid(&edges));
        let start = next(vertices as u64) as i32;
        let cheapest = cheapest_costs(&edges, start, vertices);
        for end in 0..vertices {
            let route = dijkstra(&edges, start, end);
            match cheapest[end as usize] {
                None => assert!(route.path.is_empty()),
                Some(c) => {
                    assert_eq!(route.distance, c);
                    assert_eq!(route.path[0], start);
                    assert_eq!(*route.path.last().unwrap(), end);
                    let mut sum: u64 = 0;
                    for pair in route.path.windows(2) {
                        let w = get_adjacency_nodes(&edges, pair[0])
                            .iter()
                            .filter(|h| h.to == pair[1])
                            .map(|h| h.weight)
                            .min()
                            .expect("consecutive vertices are linked");
                        sum += w as u64;
                    }
                    assert_eq!(sum, c);
                    let mut seen = route.path.clone();
                    seen.sort();
                    seen.dedup();
                    assert_eq!(seen.len(), route.path.len());
                }
            }
        }
    }
}
