use algos::unweighted::{DfsVisitor, Graph, NoVisitor};

#[test]
fn unweighted_basics() {
    let mut graph = Graph::new(5, true);
    graph.insert_edge(0, 1);

    graph.insert_edge(1, 0);
    graph.insert_edge(1, 3);

    graph.insert_edge(2, 4);
    graph.insert_edge(2, 1);
    println!("{:?}", graph);
}

#[test]
fn find_path() {
    let mut graph = Graph::new(5, true);
    graph.insert_edge(0, 1);

    graph.insert_edge(1, 2);
    graph.insert_edge(1, 3);

    graph.insert_edge(3, 4);
    graph.insert_edge(3, 0);

    assert_eq!(Some(vec![0, 1, 3, 4]), graph.find_path(0, 4));
    assert_eq!(None, graph.find_path(2, 4));
}

#[test]
fn connected_components() {
    let mut graph = Graph::new(5, true);
    graph.insert_edge(0, 1);

    graph.insert_edge(1, 2);

    graph.insert_edge(3, 4);

    assert_eq!(2, graph.connected_components());

    let graph = Graph::new(5, true);
    assert_eq!(5, graph.connected_components());

    let mut graph = Graph::new(8, true);
    graph.insert_edge(0, 1);
    graph.insert_edge(2, 3);
    graph.insert_edge(4, 5);
    graph.insert_edge(6, 7);
    assert_eq!(4, graph.connected_components());

    let mut graph = Graph::new(5, true);
    graph.insert_edge(0, 1);
    graph.insert_edge(1, 2);
    graph.insert_edge(2, 3);
    graph.insert_edge(3, 4);
    assert_eq!(1, graph.connected_components());
}

#[test]
fn find_path_to_itself_is_none() {
    let mut graph = Graph::new(3, false);
    graph.insert_edge(0, 1);
    graph.insert_edge(1, 2);
    assert_eq!(None, graph.find_path(1, 1));
    assert_eq!(Some(vec![2, 1, 0]), graph.find_path(2, 0));
}

#[test]
fn components_of_undirected_graph() {
    let mut graph = Graph::new(6, false);
    graph.insert_edge(1, 0);
    graph.insert_edge(3, 2);
    graph.insert_edge(4, 3);
    assert_eq!(3, graph.connected_components());
}

#[test]
fn directed_components_depend_on_order() {
    let mut graph = Graph::new(3, true);
    graph.insert_edge(2, 0);
    graph.insert_edge(1, 0);
    assert_eq!(3, graph.connected_components());
}

#[test]
fn dfs() {
    let mut graph = Graph::new(5, true);
    graph.insert_edge(0, 1);
    graph.insert_edge(4, 1);

    graph.insert_edge(1, 2);
    graph.insert_edge(1, 3);

    graph.insert_edge(3, 4);
    graph.insert_edge(3, 0);
    assert_eq!(Some(vec![0, 3, 1, 0]), graph.find_cycle(0));
}

#[test]
fn no_cycle_in_a_tree() {
    let mut graph = Graph::new(4, true);
    graph.insert_edge(0, 1);
    graph.insert_edge(0, 2);
    graph.insert_edge(2, 3);
    assert_eq!(None, graph.find_cycle(0));

    let mut graph = Graph::new(3, false);
    graph.insert_edge(0, 1);
    graph.insert_edge(1, 2);
    assert_eq!(None, graph.find_cycle(0));
}

#[test]
fn undirected_triangle_is_a_cycle() {
    let mut graph = Graph::new(3, false);
    graph.insert_edge(0, 1);
    graph.insert_edge(1, 2);
    graph.insert_edge(2, 0);
    let c = graph.find_cycle(0).unwrap();
    assert_eq!(c.len(), 4);
    assert_eq!(c[0], c[3]);
}

#[test]
fn depth_first_search_discovers_reachable() {
    let mut graph = Graph::new(4, true);
    graph.insert_edge(0, 1);
    graph.insert_edge(1, 2);
    graph.insert_edge(3, 0);
    assert_eq!(graph.vertex_count(), 4);
    let mut dfs = graph.init_dfs();
    dfs.search_from(1, &mut NoVisitor);
    assert!(!dfs.is_discovered(0));
    assert!(dfs.is_discovered(1));
    assert!(dfs.is_discovered(2));
    assert!(!dfs.is_discovered(3));
    dfs.search_from(3, &mut NoVisitor);
    assert!(dfs.is_discovered(0));
    assert!(dfs.is_discovered(3));
    let bfs = graph.init_bfs();
    assert!(!bfs.is_discovered(2));
}

struct Recorder {
    events: Vec<String>,
}

impl DfsVisitor for Recorder {
    fn preprocess(&mut self, v: usize) {
        self.events.push(format!("enter {}", v));
    }

    fn process_edge(&mut self, from: usize, to: usize) {
        self.events.push(format!("edge {}-{}", from, to));
    }

    fn postprocess(&mut self, v: usize) {
        self.events.push(format!("leave {}", v));
    }
}

#[test]
fn depth_first_search_calls_visitor_in_order() {
    let mut graph = Graph::new(3, true);
    graph.insert_edge(0, 1);
    graph.insert_edge(1, 2);
    let mut dfs = graph.init_dfs();
    let mut rec = Recorder { events: Vec::new() };
    dfs.search_from(0, &mut rec);
    assert_eq!(
        rec.events,
        vec!["enter 0", "edge 0-1", "enter 1", "edge 1-2", "enter 2", "leave 2", "leave 1", "leave 0"]
    );
    assert!(dfs.is_discovered(2));
}

#[test]
fn find_path_has_no_repeated_vertex() {
    let mut graph = Graph::new(4, true);
    graph.insert_edge(0, 1);
    graph.insert_edge(1, 0);
    graph.insert_edge(1, 2);
    graph.insert_edge(2, 3);
    assert_eq!(Some(vec![0, 1, 2, 3]), graph.find_path(0, 3));
}
