use changement::graph::{Direction, Graph};

#[test]
fn test_add_node() {
    let mut graph: Graph<&str> = Graph::new();

    let index = graph.add_node("a");
    assert_eq!(graph.get_nodes().len(), 1);

    let node = graph.get_node(index).unwrap();
    assert_eq!(node.data, "a");
}

#[test]
fn test_add_edge() {
    let mut graph: Graph<&str> = Graph::new();

    let a_index = graph.add_node("a");
    let b_index = graph.add_node("b");

    graph.add_edge(a_index, b_index, Direction::Outgoing);

    let edges = graph.edges(a_index, Direction::Outgoing).into_vec();

    assert_eq!(edges.len(), 1);
    assert_eq!(edges[0], b_index);

    graph.add_edge(b_index, a_index, Direction::Incoming);

    let edges = graph.edges(b_index, Direction::Incoming).into_vec();

    assert_eq!(edges.len(), 1);
    assert_eq!(edges[0], a_index);
}

#[test]
fn edges_come_newest_first_and_by_direction() {
    let mut graph: Graph<u32> = Graph::new();
    let a = graph.add_node(0);
    let b = graph.add_node(1);
    let c = graph.add_node(2);
    let d = graph.add_node(3);
    graph.add_edge(a, b, Direction::Outgoing);
    graph.add_edge(a, c, Direction::Incoming);
    graph.add_edge(a, c, Direction::Outgoing);
    graph.add_edge(b, d, Direction::Outgoing);
    graph.add_edge(a, d, Direction::Outgoing);
    graph.add_edge(a, b, Direction::Outgoing);
    assert_eq!(graph.edges(a, Direction::Outgoing).into_vec(), vec![b, d, c, b]);
    assert_eq!(graph.edges(a, Direction::Incoming).into_vec(), vec![c]);
    assert_eq!(graph.edges(b, Direction::Outgoing).into_vec(), vec![d]);
    assert!(graph.edges(c, Direction::Outgoing).into_vec().is_empty());
    assert!(graph.edges(d, Direction::Incoming).into_vec().is_empty());
}

#[test]
fn edges_cursor_yields_one_target_at_a_time() {
    let mut graph: Graph<u32> = Graph::new();
    let a = graph.add_node(0);
    let b = graph.add_node(1);
    graph.add_edge(a, b, Direction::Outgoing);
    graph.add_edge(a, a, Direction::Outgoing);
    let mut edges = graph.edges(a, Direction::Outgoing);
    assert_eq!(edges.next(), Some(a));
    assert_eq!(edges.next(), Some(b));
    assert_eq!(edges.next(), None);
    assert_eq!(edges.next(), None);
}

#[test]
fn get_node_out_of_range_is_none() {
    let mut graph: Graph<&str> = Graph::new();
    assert!(graph.get_node(0).is_none());
    let a = graph.add_node("a");
    assert!(graph.get_node(a).is_some());
    assert!(graph.get_node(a + 1).is_none());
    assert!(graph.get_node(usize::MAX).is_none());
    assert_eq!(graph.node_count(), 1);
}

#[test]
fn node_handles_are_dense_and_stable() {
    let mut graph: Graph<&str> = Graph::new();
    assert_eq!(graph.add_node("a"), 0);
    assert_eq!(graph.add_node("b"), 1);
    graph.add_edge(0, 1, Direction::Outgoing);
    assert_eq!(graph.add_node("c"), 2);
    assert_eq!(*graph.get_node(1).unwrap().data(), "b");
    *graph.data_mut(1) = "z";
    assert_eq!(graph.get_node(1).unwrap().data, "z");
    assert_eq!(graph.edges(0, Direction::Outgoing).into_vec(), vec![1]);
}
