use std::collections::HashSet;

use classic_algorithms::data::binary_tree::make_test_nodetree;
use classic_algorithms::data::graph::{
    Graph, GraphNode, make_test_unweighted_indexed_graph, make_test_unweighted_linked_graph_nodes,
};
use classic_algorithms::traverse::bfs::{
    bfs_graph_traversal_in_indexed_graph, bfs_graph_traversal_in_linked_graph,
};
use classic_algorithms::traverse::binary_tree::{
    in_order_traversal_values, post_order_traversal_values, pre_order_traversal_values,
};
use classic_algorithms::traverse::dfs::dfs_graph_traversal;

#[test]
fn bfs_graph_traversal_works() {
    let graph = make_test_unweighted_indexed_graph();
    let bfs_from_a_indexes = bfs_graph_traversal_in_indexed_graph(&graph, 0);

    assert_eq!(bfs_from_a_indexes.len(), graph.nodes.len());
    let unique: HashSet<usize> = bfs_from_a_indexes.into_iter().collect();
    assert_eq!(unique.len(), graph.nodes.len());
}

#[test]
fn bfs_graph_node_traversal_works() {
    let (nodes, start, _) = make_test_unweighted_linked_graph_nodes('a', None);
    let bfs_from_a_indexes = bfs_graph_traversal_in_linked_graph(&nodes, start);

    assert_eq!(bfs_from_a_indexes.len(), 8);
    let unique: HashSet<usize> = bfs_from_a_indexes.into_iter().collect();
    assert_eq!(unique.len(), 8);
}

#[test]
fn dfs_traversal_works() {
    let graph = make_test_unweighted_indexed_graph();
    let dfs_from_a_indexes = dfs_graph_traversal(&graph, 0);

    assert_eq!(dfs_from_a_indexes.len(), graph.nodes.len());
    let unique: HashSet<usize> = dfs_from_a_indexes.into_iter().collect();
    assert_eq!(unique.len(), graph.nodes.len());
}

#[test]
fn traversal_of_disconnected_start_is_the_start_alone() {
    let graph: Graph<char, ()> = Graph {
        nodes: vec!['x', 'y'],
        edges: vec![vec![], vec![(0, ())]],
    };
    assert_eq!(bfs_graph_traversal_in_indexed_graph(&graph, 0), [0]);
    assert_eq!(dfs_graph_traversal(&graph, 0), [0]);
}

#[test]
fn traversal_visits_only_the_reachable_part() {
    // 0 -> 1 -> 2, while 3 is off on its own
    let graph: Graph<u32, ()> = Graph {
        nodes: vec![10, 11, 12, 13],
        edges: vec![vec![(1, ())], vec![(2, ())], vec![], vec![]],
    };
    let order = bfs_graph_traversal_in_indexed_graph(&graph, 0);
    assert_eq!(order, [0, 1, 2]);
    let order = dfs_graph_traversal(&graph, 0);
    assert_eq!(order, [0, 1, 2]);
}

#[test]
fn representations_with_equal_topology_agree() {
    // the same three-node cycle, once indexed and once as an arena
    let graph: Graph<char, ()> = Graph {
        nodes: vec!['p', 'q', 'r'],
        edges: vec![vec![(1, ())], vec![(2, ())], vec![(0, ())]],
    };
    let nodes: Vec<GraphNode<char, ()>> = vec![
        GraphNode { value: 'p', neighbours: vec![(1, ())] },
        GraphNode { value: 'q', neighbours: vec![(2, ())] },
        GraphNode { value: 'r', neighbours: vec![(0, ())] },
    ];
    let indexed_order = bfs_graph_traversal_in_indexed_graph(&graph, 1);
    let linked_order = bfs_graph_traversal_in_linked_graph(&nodes, 1);
    assert_eq!(indexed_order, linked_order);

    let indexed_set: HashSet<usize> = bfs_graph_traversal_in_indexed_graph(&graph, 0).into_iter().collect();
    let linked_set: HashSet<usize> = bfs_graph_traversal_in_linked_graph(&nodes, 0).into_iter().collect();
    assert_eq!(indexed_set, linked_set);
}

#[test]
fn pre_order_traversal_works() {
    let root = make_test_nodetree();
    let output = pre_order_traversal_values(&root);
    let expected = vec![10, 7, 6, 1, 8, 9, 11, 20, 14, 22];
    assert_eq!(expected, output);
}

#[test]
fn in_order_traversal_works() {
    let root = make_test_nodetree();
    let output = in_order_traversal_values(&root);
    let expected = vec![1, 6, 7, 8, 9, 10, 11, 14, 20, 22];
    assert_eq!(expected, output);
}

#[test]
fn post_order_traversal_works() {
    let root = make_test_nodetree();
    let output = post_order_traversal_values(&root);
    let expected = vec![1, 6, 9, 8, 7, 14, 22, 20, 11, 10];
    assert_eq!(expected, output);
}
