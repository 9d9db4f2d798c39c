use algos::weighted::{WeightedGraph, UNREACHED};

fn seven_vertex_graph() -> WeightedGraph {
    let mut graph = WeightedGraph::new(7, false);
    graph.insert_edge(0, 1, 5);
    graph.insert_edge(0, 2, 7);
    graph.insert_edge(0, 3, 12);

    graph.insert_edge(1, 2, 9);
    graph.insert_edge(1, 4, 7);

    graph.insert_edge(2, 3, 4);
    graph.insert_edge(2, 4, 4);
    graph.insert_edge(2, 5, 3);

    graph.insert_edge(3, 5, 7);

    graph.insert_edge(4, 5, 2);
    graph.insert_edge(4, 6, 5);

    graph.insert_edge(5, 6, 2);
    graph
}

fn five_vertex_graph() -> WeightedGraph {
    let mut graph = WeightedGraph::new(5, false);
    graph.insert_edge(0, 4, 5);
    graph.insert_edge(1, 4, 4);
    graph.insert_edge(2, 4, 3);
    graph.insert_edge(3, 4, 2);

    graph.insert_edge(0, 1, 1);
    graph.insert_edge(1, 2, 1);
    graph.insert_edge(2, 3, 1);
    graph.insert_edge(3, 4, 1);
    graph
}

#[test]
fn prims() {
    let graph = seven_vertex_graph();
    (0..7).for_each(|start| assert_eq!(graph.prims(start).total_weight(), 23));
}

#[test]
fn kruskals() {
    let graph = seven_vertex_graph();
    assert_eq!(graph.kruskals().total_weight(), 23);
}

#[test]
fn dijkstras() {
    let graph = five_vertex_graph();

    let shortest_paths = graph.dijkstras(0);
    assert_eq!(shortest_paths.path_to(4).unwrap().weight, 4);
    assert_eq!(shortest_paths.path_to(2).unwrap().weight, 2);
    assert_eq!(shortest_paths.path_to(1).unwrap().weight, 1);

    let shortest_paths = graph.dijkstras(1);
    assert_eq!(shortest_paths.path_to(4).unwrap().weight, 3);

    let shortest_paths = graph.dijkstras(2);
    assert_eq!(shortest_paths.path_to(4).unwrap().weight, 2);

    let shortest_paths = graph.dijkstras(3);
    assert_eq!(shortest_paths.path_to(4).unwrap().weight, 1);
}

#[test]
fn dijkstra_path_lists_vertices() {
    let graph = five_vertex_graph();
    let p = graph.dijkstras(0).path_to(4).unwrap();
    assert_eq!(p.path, vec![0, 1, 2, 3, 4]);
    let p = graph.dijkstras(3).path_to(0).unwrap();
    assert_eq!(p.path, vec![3, 2, 1, 0]);
    assert_eq!(p.weight, 3);
}

#[test]
fn dijkstra_path_to_start_is_empty_walk() {
    let graph = five_vertex_graph();
    let p = graph.dijkstras(2).path_to(2).unwrap();
    assert_eq!(p.path, vec![2]);
    assert_eq!(p.weight, 0);
}

#[test]
fn dijkstra_unreachable_is_none() {
    let mut graph = WeightedGraph::new(4, true);
    graph.insert_edge(0, 1, 3);
    graph.insert_edge(2, 0, 1);
    graph.insert_edge(3, 2, 8);
    let sp = graph.dijkstras(0);
    assert!(sp.path_to(2).is_none());
    assert!(sp.path_to(3).is_none());
    assert_eq!(sp.path_to(1).unwrap().weight, 3);
    assert!(UNREACHED > 0);
}

#[test]
fn prims_and_kruskals_agree_on_a_square() {
    let mut graph = WeightedGraph::new(4, false);
    graph.insert_edge(0, 1, 1);
    graph.insert_edge(1, 2, 2);
    graph.insert_edge(2, 3, 3);
    graph.insert_edge(3, 0, 4);
    graph.insert_edge(0, 2, 5);
    assert_eq!(graph.kruskals().total_weight(), 6);
    for s in 0..4 {
        assert_eq!(graph.prims(s).total_weight(), 6);
    }
}

#[test]
fn prims_covers_only_reached_component() {
    let mut graph = WeightedGraph::new(5, false);
    graph.insert_edge(0, 1, 4);
    graph.insert_edge(1, 2, -3);
    graph.insert_edge(3, 4, 10);
    let t = graph.prims(0);
    assert_eq!(t.total_weight(), 1);
    assert_eq!(t.parent(0), None);
    assert_eq!(t.parent(2), Some(1));
    assert_eq!(t.parent(3), None);
    assert_eq!(graph.kruskals().total_weight(), 11);
}

#[test]
fn kruskals_with_few_edges() {
    let mut graph = WeightedGraph::new(5, false);
    graph.insert_edge(0, 4, 2);
    assert_eq!(graph.kruskals().total_weight(), 2);
}

#[test]
fn algorithms_repeat_identically() {
    let graph = seven_vertex_graph();
    let a = graph.prims(3);
    let b = graph.prims(3);
    assert_eq!(a.total_weight(), b.total_weight());
    for v in 0..7 {
        assert_eq!(a.parent(v), b.parent(v));
    }
    assert_eq!(graph.kruskals().total_weight(), graph.kruskals().total_weight());
    let d1 = graph.dijkstras(0);
    let d2 = graph.dijkstras(0);
    for v in 0..7 {
        let p1 = d1.path_to(v).unwrap();
        let p2 = d2.path_to(v).unwrap();
        assert_eq!(p1.path, p2.path);
        assert_eq!(p1.weight, p2.weight);
    }
}

fn connects_all(n: usize, chosen: &[(usize, usize, i32)]) -> bool {
    let mut label: Vec<usize> = (0..n).collect();
    for &(a, b, _) in chosen {
        let (la, lb) = (label[a], label[b]);
        if la != lb {
            for l in label.iter_mut() {
                if *l == lb {
                    *l = la;
                }
            }
        }
    }
    label.iter().all(|&l| l == label[0])
}

fn brute_force_mst(n: usize, edges: &[(usize, usize, i32)]) -> Option<i64> {
    let m = edges.len();
    let mut best: Option<i64> = None;
    for mask in 0u32..(1u32 << m) {
        if mask.count_ones() as usize != n - 1 {
            continue;
        }
        let chosen: Vec<(usize, usize, i32)> =
            (0..m).filter(|i| mask & (1 << i) != 0).map(|i| edges[i]).collect();
        if connects_all(n, &chosen) {
            let w: i64 = chosen.iter().map(|e| e.2 as i64).sum();
            best = Some(best.map_or(w, |b| b.min(w)));
        }
    }
    best
}

fn check_against_brute_force(n: usize, edges: &[(usize, usize, i32)]) {
    let mut graph = WeightedGraph::new(n, false);
    for &(a, b, w) in edges {
        graph.insert_edge(a, b, w);
    }
    let best = brute_force_mst(n, edges).unwrap();
    assert_eq!(graph.kruskals().total_weight(), best);
    for s in 0..n {
        assert_eq!(graph.prims(s).total_weight(), best);
    }
}

#[test]
fn minimum_spanning_weight_matches_brute_force() {
    check_against_brute_force(
        7,
        &[
            (0, 1, 5),
            (0, 2, 7),
            (0, 3, 12),
            (1, 2, 9),
            (1, 4, 7),
            (2, 3, 4),
            (2, 4, 4),
            (2, 5, 3),
            (3, 5, 7),
            (4, 5, 2),
            (4, 6, 5),
            (5, 6, 2),
        ],
    );
    check_against_brute_force(
        5,
        &[(0, 4, 5), (1, 4, 4), (2, 4, 3), (3, 4, 2), (0, 1, 1), (1, 2, 1), (2, 3, 1), (3, 4, 1)],
    );
    check_against_brute_force(
        5,
        &[(0, 1, 3), (0, 2, 3), (1, 2, 3), (2, 3, -4), (3, 4, 0), (1, 4, 3), (0, 4, 8)],
    );
    check_against_brute_force(4, &[(0, 1, 2), (0, 1, 1), (1, 2, 6), (2, 3, 1), (3, 0, 6), (1, 3, 6)]);
}

#[test]
fn shortest_distances_match_brute_force() {
    let edges = [(0, 1, 4), (0, 2, 1), (2, 1, 2), (1, 3, 1), (2, 3, 5), (3, 4, 3)];
    let mut graph = WeightedGraph::new(5, true);
    for &(a, b, w) in edges.iter() {
        graph.insert_edge(a, b, w);
    }
    // Bellman-Ford style relaxation as an independent reference.
    let mut best = vec![i64::MAX; 5];
    best[0] = 0;
    for _ in 0..5 {
        for &(a, b, w) in edges.iter() {
            if best[a] != i64::MAX && best[a] + (w as i64) < best[b] {
                best[b] = best[a] + w as i64;
            }
        }
    }
    let sp = graph.dijkstras(0);
    for v in 0..5 {
        assert_eq!(sp.path_to(v).unwrap().weight, best[v]);
    }
    assert_eq!(sp.path_to(3).unwrap().path, vec![0, 2, 1, 3]);
}

#[test]
fn prims_takes_the_lighter_triangle_tree() {
    let mut graph = WeightedGraph::new(3, false);
    graph.insert_edge(0, 1, 2);
    graph.insert_edge(0, 2, 2);
    graph.insert_edge(1, 2, 1);
    assert_eq!(graph.prims(0).total_weight(), 3);
}

#[test]
fn kruskals_skips_the_heavy_triangle_edge() {
    let mut graph = WeightedGraph::new(3, false);
    graph.insert_edge(0, 1, 1);
    graph.insert_edge(1, 2, 1);
    graph.insert_edge(0, 2, 10);
    assert_eq!(graph.kruskals().total_weight(), 2);
}

#[test]
fn dijkstra_ignores_weights_it_cannot_reach() {
    let mut graph = WeightedGraph::new(4, true);
    graph.insert_edge(0, 1, 2);
    graph.insert_edge(2, 3, -5);
    graph.insert_edge(3, 2, 0);
    let sp = graph.dijkstras(0);
    assert_eq!(sp.path_to(1).unwrap().weight, 2);
    assert!(sp.path_to(3).is_none());
}
