use graph_traversal::bfs::BfsIterator;
use graph_traversal::dfs::DfsIterator;
use graph_traversal::graph::{Graph, GraphError, Node};
use graph_traversal::smallest::NextSmallestIterator;

fn node(value: i32, neighbors: Vec<usize>) -> Node {
    Node { value, neighbors }
}

/// The running example: values equal positions, edges in both directions.
fn sample_graph() -> Graph {
    Graph::new(vec![
        node(0, vec![1, 2]),
        node(1, vec![0, 5, 4]),
        node(2, vec![0, 3]),
        node(3, vec![1]),
        node(4, vec![1, 2]),
        node(5, vec![1, 2]),
    ])
    .unwrap()
}

fn bfs_values(g: &Graph, start: usize) -> Vec<i32> {
    let mut it = BfsIterator::new(g, start);
    let mut out = Vec::new();
    while let Some(p) = it.next() {
        out.push(g.value_of(p));
    }
    out
}

fn dfs_values(g: &Graph, start: usize) -> Vec<i32> {
    let mut it = DfsIterator::new(g, start);
    let mut out = Vec::new();
    while let Some(p) = it.next() {
        out.push(g.value_of(p));
    }
    out
}

fn smallest_values(g: &Graph, start: usize) -> Vec<i32> {
    let mut it = NextSmallestIterator::new(g, start);
    let mut out = Vec::new();
    while let Some(p) = it.next() {
        out.push(g.value_of(p));
    }
    out
}

#[test]
fn bfs_order_on_sample_graph() {
    let g = sample_graph();
    assert_eq!(bfs_values(&g, 0), vec![0, 1, 2, 5, 4, 3]);
}

#[test]
fn dfs_order_on_sample_graph() {
    let g = sample_graph();
    assert_eq!(dfs_values(&g, 0), vec![0, 1, 5, 4, 2, 3]);
}

#[test]
fn smallest_order_on_sample_graph() {
    let g = sample_graph();
    assert_eq!(smallest_values(&g, 0), vec![0, 1, 2, 3, 4, 5]);
}

#[test]
fn single_node_yields_once_each_variant() {
    let g = Graph::new(vec![node(7, vec![])]).unwrap();
    assert_eq!(bfs_values(&g, 0), vec![7]);
    assert_eq!(dfs_values(&g, 0), vec![7]);
    assert_eq!(smallest_values(&g, 0), vec![7]);
}

#[test]
fn empty_graph_start_zero_yields_nothing() {
    let g = Graph::new(vec![]).unwrap();
    assert_eq!(bfs_values(&g, 0), Vec::<i32>::new());
    assert_eq!(dfs_values(&g, 0), Vec::<i32>::new());
    assert_eq!(smallest_values(&g, 0), Vec::<i32>::new());
}

#[test]
fn one_past_end_start_yields_nothing() {
    let g = sample_graph();
    assert_eq!(bfs_values(&g, 6), Vec::<i32>::new());
    assert_eq!(dfs_values(&g, 6), Vec::<i32>::new());
    assert_eq!(smallest_values(&g, 6), Vec::<i32>::new());
}

#[test]
fn exhaustion_is_permanent() {
    let g = sample_graph();
    let mut bfs = BfsIterator::new(&g, 0);
    let mut dfs = DfsIterator::new(&g, 0);
    let mut ns = NextSmallestIterator::new(&g, 0);
    while bfs.next().is_some() {}
    while dfs.next().is_some() {}
    while ns.next().is_some() {}
    for _ in 0..3 {
        assert!(bfs.next().is_none());
        assert!(dfs.next().is_none());
        assert!(ns.next().is_none());
    }
}

#[test]
fn cycle_yields_each_node_once() {
    let g = Graph::new(vec![node(10, vec![1]), node(20, vec![2]), node(30, vec![0])]).unwrap();
    for vals in [bfs_values(&g, 0), dfs_values(&g, 0)] {
        assert_eq!(vals.len(), 3);
        assert!(vals.contains(&10) && vals.contains(&20) && vals.contains(&30));
    }
    assert_eq!(smallest_values(&g, 0), vec![10, 20, 30]);
}

#[test]
fn unreachable_nodes_are_not_yielded() {
    let g = Graph::new(vec![node(1, vec![1]), node(2, vec![]), node(3, vec![])]).unwrap();
    assert_eq!(bfs_values(&g, 0), vec![1, 2]);
    assert_eq!(dfs_values(&g, 0), vec![1, 2]);
    assert_eq!(smallest_values(&g, 0), vec![1, 2]);
}

#[test]
fn dangling_neighbor_is_rejected_at_build_time() {
    let r = Graph::new(vec![node(0, vec![5])]);
    assert_eq!(r.unwrap_err(), GraphError::NeighborOutOfRange);
}

#[test]
fn bfs_visits_tree_layer_by_layer() {
    let g = Graph::new(vec![
        node(0, vec![1, 4]),
        node(1, vec![2, 3]),
        node(2, vec![]),
        node(3, vec![]),
        node(4, vec![5]),
        node(5, vec![]),
    ])
    .unwrap();
    assert_eq!(bfs_values(&g, 0), vec![0, 1, 4, 2, 3, 5]);
}

#[test]
fn dfs_visits_tree_in_preorder() {
    let g = Graph::new(vec![
        node(0, vec![1, 4]),
        node(1, vec![2, 3]),
        node(2, vec![]),
        node(3, vec![]),
        node(4, vec![5]),
        node(5, vec![]),
    ])
    .unwrap();
    assert_eq!(dfs_values(&g, 0), vec![0, 1, 2, 3, 4, 5]);
}

#[test]
fn smallest_is_sorted_when_values_grow_along_edges() {
    let g = Graph::new(vec![
        node(1, vec![2, 1]),
        node(2, vec![3]),
        node(2, vec![3]),
        node(9, vec![]),
    ])
    .unwrap();
    assert_eq!(smallest_values(&g, 0), vec![1, 2, 2, 9]);
}

#[test]
fn smallest_follows_discovery_not_a_global_sort() {
    // A small value hidden behind a large one is yielded only once found.
    let g = Graph::new(vec![node(5, vec![1]), node(1, vec![])]).unwrap();
    assert_eq!(smallest_values(&g, 0), vec![5, 1]);
}

#[test]
fn smallest_breaks_value_ties_by_position() {
    let g = Graph::new(vec![node(4, vec![2, 1]), node(4, vec![]), node(4, vec![])]).unwrap();
    let mut it = NextSmallestIterator::new(&g, 0);
    let mut order = Vec::new();
    while let Some(p) = it.next() {
        order.push(p);
    }
    assert_eq!(order, vec![0, 1, 2]);
}

#[test]
fn shared_child_is_yielded_once() {
    // A diamond: both 1 and 2 lead to 3, which must come out exactly once.
    let g = Graph::new(vec![
        node(0, vec![1, 2]),
        node(1, vec![3]),
        node(2, vec![3]),
        node(3, vec![]),
    ])
    .unwrap();
    assert_eq!(g.len(), 4);
    assert_eq!(bfs_values(&g, 0), vec![0, 1, 2, 3]);
    assert_eq!(dfs_values(&g, 0), vec![0, 1, 3, 2]);
    assert_eq!(smallest_values(&g, 0), vec![0, 1, 2, 3]);
}

#[test]
fn concurrent_traversals_are_independent() {
    let g = sample_graph();
    let mut a = BfsIterator::new(&g, 0);
    let mut b = BfsIterator::new(&g, 3);
    assert_eq!(a.next(), Some(0));
    assert_eq!(b.next(), Some(3));
    assert_eq!(a.next(), Some(1));
    assert_eq!(b.next(), Some(1));
    assert_eq!(a.next(), Some(2));
    let mut rest = Vec::new();
    while let Some(p) = a.next() {
        rest.push(p);
    }
    assert_eq!(rest, vec![5, 4, 3]);
}
