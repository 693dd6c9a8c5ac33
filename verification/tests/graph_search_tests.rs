use std::collections::HashSet;

use classic_algorithms::data::graph::{
    Graph, GraphNode, make_test_unweighted_indexed_graph, make_test_unweighted_linked_graph_nodes,
    make_test_weighted_indexed_graph, make_test_weighted_linked_graph_nodes,
};
use classic_algorithms::search::SearchError;
use classic_algorithms::search::bfs::{
    bfs_shortest_path_in_indexed_graph, bfs_shortest_path_in_linked_graph,
};
use classic_algorithms::search::dfs::{
    dfs_path_in_unweighted_indexed_graph, dfs_path_in_unweighted_linked_graph,
};
use classic_algorithms::search::dijkstra::{
    dijkstra_shortest_path_in_weighted_indexed_graph, dijkstra_shortest_path_in_weighted_linked_graph,
};

#[test]
fn bfs_shortest_path_works_for_indexed_graph() {
    let graph = make_test_unweighted_indexed_graph();

    // GraphNodeIndex:  0,   1,   2,   3,   4,   5,   6,   7
    //                 'a', 'b', 'c', 'd', 'e', 'f', 'g', 'h'

    let shortest_path = bfs_shortest_path_in_indexed_graph(&graph, 0, 5).unwrap();
    assert_eq!(shortest_path, [0, 4, 5]);
    let shortest_path = bfs_shortest_path_in_indexed_graph(&graph, 1, 5).unwrap();
    assert_eq!(shortest_path, [1, 6, 5]);
    let shortest_path = bfs_shortest_path_in_indexed_graph(&graph, 0, 7).unwrap();
    assert_eq!(shortest_path, [0, 3, 7]);
}

#[test]
fn bfs_shortest_path_works_for_linked_graph() {
    let (nodes, start, end) = make_test_unweighted_linked_graph_nodes('a', Some('g'));
    let end = end.unwrap();
    let path = bfs_shortest_path_in_linked_graph(&nodes, start, end).unwrap();

    let unique: HashSet<usize> = path.iter().cloned().collect();

    assert_eq!(unique.len(), path.len());
    assert_eq!(path[0], start);
    assert_eq!(path[path.len() - 1], end);
    let expected = ['a', 'b', 'g'];
    for i in 0..(path.len() - 1) {
        let node = path[i];
        let next = path[i + 1];
        assert!(
            nodes[node].neighbours.iter().any(|&(neighbour, _)| neighbour == next),
            "incorrect path"
        );
        assert!(nodes[node].value == expected[i]);
    }
}

#[test]
fn dfs_path_works_for_unweighted_indexed_graph() {
    let graph = make_test_unweighted_indexed_graph();
    let start = 0;
    let end = 6;
    let path = dfs_path_in_unweighted_indexed_graph(&graph, start, end).unwrap();

    let unique: HashSet<usize> = path.iter().copied().collect();
    assert_eq!(unique.len(), path.len());
    assert_eq!(path[0], start);
    assert_eq!(path[path.len() - 1], end);
    for i in 0..(path.len() - 1) {
        let node_index = path[i];
        let next_index = path[i + 1];
        assert!(
            graph.edges[node_index].iter().any(|&(neighbour, _)| neighbour == next_index),
            "incorrect path"
        );
    }
}

#[test]
fn dfs_path_works_for_unweighted_linked_graph() {
    let (nodes, start, end) = make_test_unweighted_linked_graph_nodes('a', Some('g'));
    let end = end.unwrap();
    let path = dfs_path_in_unweighted_linked_graph(&nodes, start, end).unwrap();

    let unique: HashSet<usize> = path.iter().cloned().collect();

    assert_eq!(unique.len(), path.len());
    assert_eq!(path[0], start);
    assert_eq!(path[path.len() - 1], end);
    for i in 0..(path.len() - 1) {
        let node = path[i];
        let next = path[i + 1];
        assert!(
            nodes[node].neighbours.iter().any(|&(neighbour, _)| neighbour == next),
            "incorrect path"
        );
    }
}

#[test]
fn dijkstra_shortest_path_works() {
    let graph = make_test_weighted_indexed_graph();

    // GraphNodeIndex:  0,   1,   2,   3,   4,   5,   6,   7
    //                 'a', 'b', 'c', 'd', 'e', 'f', 'g', 'h'

    let (shortest_path, _) = dijkstra_shortest_path_in_weighted_indexed_graph(&graph, 0, 5).unwrap();
    assert_eq!(shortest_path, [0, 4, 5]);
    let (shortest_path, _) = dijkstra_shortest_path_in_weighted_indexed_graph(&graph, 1, 5).unwrap();
    assert_eq!(shortest_path, [1, 0, 4, 5]);
    let (shortest_path, _) = dijkstra_shortest_path_in_weighted_indexed_graph(&graph, 0, 7).unwrap();
    assert_eq!(shortest_path, [0, 3, 7]);
}

#[test]
fn bfs_shortest_path_works_for_weighted_linked_graph() {
    // GraphNodeIndex:  0,   1,   2,   3,   4,   5,   6,   7
    //                 'a', 'b', 'c', 'd', 'e', 'f', 'g', 'h'

    // 'a' -> 'f', i.e. 0->5
    let (nodes, start, end) = make_test_weighted_linked_graph_nodes('a', Some('f'));
    let end = end.unwrap();
    let (path, _) = dijkstra_shortest_path_in_weighted_linked_graph(&nodes, start, end).unwrap();
    let unique: HashSet<usize> = path.iter().cloned().collect();
    assert_eq!(unique.len(), path.len());
    assert_eq!(path[0], start);
    assert_eq!(path[path.len() - 1], end);
    for i in 0..(path.len() - 1) {
        let node = path[i];
        let next = path[i + 1];
        assert!(
            nodes[node].neighbours.iter().any(|&(neighbour, _)| neighbour == next),
            "incorrect path"
        );
    }
    assert_eq!(path.iter().map(|&n| nodes[n].value).collect::<Vec<_>>(), ['a', 'e', 'f']);

    // 'b' -> 'f', i.e. 1->5
    let (nodes, start, end) = make_test_weighted_linked_graph_nodes('b', Some('f'));
    let end = end.unwrap();
    let (path, _) = dijkstra_shortest_path_in_weighted_linked_graph(&nodes, start, end).unwrap();
    let unique: HashSet<usize> = path.iter().cloned().collect();
    assert_eq!(unique.len(), path.len());
    assert_eq!(path[0], start);
    assert_eq!(path[path.len() - 1], end);
    for i in 0..(path.len() - 1) {
        let node = path[i];
        let next = path[i + 1];
        assert!(
            nodes[node].neighbours.iter().any(|&(neighbour, _)| neighbour == next),
            "incorrect path"
        );
    }
    assert_eq!(path.iter().map(|&n| nodes[n].value).collect::<Vec<_>>(), ['b', 'a', 'e', 'f']);

    // 'a' -> 'h', i.e. 0->7
    let (nodes, start, end) = make_test_weighted_linked_graph_nodes('a', Some('h'));
    let end = end.unwrap();
    let (path, _) = dijkstra_shortest_path_in_weighted_linked_graph(&nodes, start, end).unwrap();
    let unique: HashSet<usize> = path.iter().cloned().collect();
    assert_eq!(unique.len(), path.len());
    assert_eq!(path[0], start);
    assert_eq!(path[path.len() - 1], end);
    for i in 0..(path.len() - 1) {
        let node = path[i];
        let next = path[i + 1];
        assert!(
            nodes[node].neighbours.iter().any(|&(neighbour, _)| neighbour == next),
            "incorrect path"
        );
    }
    assert_eq!(path.iter().map(|&n| nodes[n].value).collect::<Vec<_>>(), ['a', 'd', 'h']);
}

#[test]
fn dijkstra_total_weight_of_sample_paths() {
    let graph = make_test_weighted_indexed_graph();
    let (path, total) = dijkstra_shortest_path_in_weighted_indexed_graph(&graph, 1, 5).unwrap();
    assert_eq!(path, [1, 0, 4, 5]);
    assert_eq!(total, 3);
    let (_, total) = dijkstra_shortest_path_in_weighted_indexed_graph(&graph, 0, 7).unwrap();
    assert_eq!(total, 3);
}

#[test]
fn unreachable_target_is_an_error() {
    let graph: Graph<char, u64> = Graph {
        nodes: vec!['x', 'y'],
        edges: vec![vec![], vec![(0, 1)]],
    };
    assert_eq!(
        bfs_shortest_path_in_indexed_graph(&graph, 0, 1),
        Err(SearchError::UnreachableTarget)
    );
    assert_eq!(
        dfs_path_in_unweighted_indexed_graph(&graph, 0, 1),
        Err(SearchError::UnreachableTarget)
    );
    assert_eq!(
        dijkstra_shortest_path_in_weighted_indexed_graph(&graph, 0, 1),
        Err(SearchError::UnreachableTarget)
    );
    let nodes: Vec<GraphNode<char, u64>> = vec![
        GraphNode { value: 'x', neighbours: vec![] },
        GraphNode { value: 'y', neighbours: vec![(0, 1)] },
    ];
    assert_eq!(
        bfs_shortest_path_in_linked_graph(&nodes, 0, 1),
        Err(SearchError::UnreachableTarget)
    );
    assert_eq!(
        dfs_path_in_unweighted_linked_graph(&nodes, 0, 1),
        Err(SearchError::UnreachableTarget)
    );
    assert_eq!(
        dijkstra_shortest_path_in_weighted_linked_graph(&nodes, 0, 1),
        Err(SearchError::UnreachableTarget)
    );
}

#[test]
fn start_equal_to_target_gives_single_node_path() {
    let graph = make_test_unweighted_indexed_graph();
    assert_eq!(bfs_shortest_path_in_indexed_graph(&graph, 3, 3).unwrap(), [3]);
    assert_eq!(dfs_path_in_unweighted_indexed_graph(&graph, 3, 3).unwrap(), [3]);
    let weighted = make_test_weighted_indexed_graph();
    let (path, total) = dijkstra_shortest_path_in_weighted_indexed_graph(&weighted, 3, 3).unwrap();
    assert_eq!(path, [3]);
    assert_eq!(total, 0);
}
