use classic_algorithms::search::bfs::bfs_shortest_path_in_indexed_graph;
use classic_algorithms::search::maze::{Position, construct_test_maze_as_graph};

// Maze:
//        10100010<-end
//        00100100
//        01101101
//        01100101
//        01110101
//        00110100
//        10000010
// start->00111000
#[test]
fn solve_maze_using_bfs() {
    let maze = construct_test_maze_as_graph();
    let maze_width = 8;
    let start_position = Position { i: 7, j: 0 };
    assert_eq!(
        start_position,
        Position::from_index(start_position.index(maze_width), maze_width)
    );
    let end_position = Position { i: 0, j: 7 };
    assert_eq!(
        end_position,
        Position::from_index(end_position.index(maze_width), maze_width)
    );
    let found_path = bfs_shortest_path_in_indexed_graph(
        &maze,
        start_position.index(maze_width),
        end_position.index(maze_width),
    )
    .unwrap();
    assert!(found_path.len() == 19);

    let expected_path = vec![
        Position { i: 7, j: 0 },
        Position { i: 7, j: 1 },
        Position { i: 6, j: 1 },
        Position { i: 6, j: 2 },
        Position { i: 6, j: 3 },
        Position { i: 6, j: 4 },
        Position { i: 6, j: 5 },
        Position { i: 7, j: 5 },
        Position { i: 7, j: 6 },
        Position { i: 7, j: 7 },
        Position { i: 6, j: 7 },
        Position { i: 5, j: 7 },
        Position { i: 5, j: 6 },
        Position { i: 4, j: 6 },
        Position { i: 3, j: 6 },
        Position { i: 2, j: 6 },
        Position { i: 1, j: 6 },
        Position { i: 1, j: 7 },
        Position { i: 0, j: 7 },
    ];
    assert_eq!(
        expected_path,
        found_path
            .into_iter()
            .map(|index| Position::from_index(index, maze_width))
            .collect::<Vec<Position>>()
    );
}

#[test]
fn position_moves_respect_the_borders() {
    let corner = Position::new(0, 0);
    assert_eq!(corner.up(), None);
    assert_eq!(corner.left(), None);
    assert_eq!(corner.right(3), Some(Position { i: 0, j: 1 }));
    assert_eq!(corner.down(3), Some(Position { i: 1, j: 0 }));

    let far = Position::new(2, 2);
    assert_eq!(far.right(3), None);
    assert_eq!(far.down(3), None);
    assert_eq!(far.up(), Some(Position { i: 1, j: 2 }));
    assert_eq!(far.left(), Some(Position { i: 2, j: 1 }));
}
