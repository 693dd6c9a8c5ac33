use vstd::prelude::*;

use crate::data::graph::{Graph, GraphNodeIndex};

verus! {

/// A cell of a rectangular maze: `i` grows from top to bottom, `j` from
/// left to right.
#[derive(Clone, Copy, PartialEq, Eq, Structural, Debug)]
pub struct Position {
    pub i: usize,
    pub j: usize,
}

impl Position {
    /// The position at row `i`, column `j`.
    pub fn new(i: usize, j: usize) -> (r: Position)
        ensures
            r.i == i,
            r.j == j,
    {
        Position { i, j }
    }

    /// The cell one row up, if any.
    pub fn up(self) -> (r: Option<Position>)
        ensures
            r is Some <==> self.i > 0,
            r matches Some(p) ==> p.i == self.i - 1 && p.j == self.j,
    {
        if self.i > 0 {
            Some(Position { i: self.i - 1, j: self.j })
        } else {
            None
        }
    }

    /// The cell one column to the right, if it lies inside a maze of width
    /// `maze_width`.
    pub fn right(self, maze_width: usize) -> (r: Option<Position>)
        ensures
            r is Some <==> self.j + 1 < maze_width,
            r matches Some(p) ==> p.i == self.i && p.j == self.j + 1,
    {
        if self.j < maze_width && self.j + 1 < maze_width {
            Some(Position { i: self.i, j: self.j + 1 })
        } else {
            None
        }
    }

    /// The cell one row down, if it lies inside a maze of height
    /// `maze_height`.
    pub fn down(self, maze_height: usize) -> (r: Option<Position>)
        ensures
            r is Some <==> self.i + 1 < maze_height,
            r matches Some(p) ==> p.i == self.i + 1 && p.j == self.j,
    {
        if self.i < maze_height && self.i + 1 < maze_height {
            Some(Position { i: self.i + 1, j: self.j })
        } else {
            None
        }
    }

    /// The cell one column to the left, if any.
    pub fn left(self) -> (r: Option<Position>)
        ensures
            r is Some <==> self.j > 0,
            r matches Some(p) ==> p.i == self.i && p.j == self.j - 1,
    {
        if self.j > 0 {
            Some(Position { i: self.i, j: self.j - 1 })
        } else {
            None
        }
    }

    /// The node index of this position in row-major order, given the maze
    /// width.
    pub fn index(self, maze_width: usize) -> (r: GraphNodeIndex)
        requires
            self.i * maze_width + self.j <= usize::MAX,
        ensures
            r == self.i * maze_width + self.j,
    {
        self.i * maze_width + self.j
    }

    /// The position of a row-major node index, given the maze width.
    pub fn from_index(index: GraphNodeIndex, maze_width: usize) -> (r: Position)
        requires
            maze_width > 0,
        ensures
            r.i == index / maze_width,
            r.j == index % maze_width,
    {
        let i = index / maze_width;
        let j = index % maze_width;
        Position { i, j }
    }
}

/// The sample eight-by-eight maze, row by row: `1` marks a wall cell, `0`
/// a floor cell.
pub open spec fn sample_maze() -> Seq<Seq<u8>> {
    seq![
        seq![1u8, 0, 1, 0, 0, 0, 1, 0],
        seq![0u8, 0, 1, 0, 0, 1, 0, 0],
        seq![0u8, 1, 1, 0, 1, 1, 0, 1],
        seq![0u8, 1, 1, 0, 0, 1, 0, 1],
        seq![0u8, 1, 1, 1, 0, 1, 0, 1],
        seq![0u8, 0, 1, 1, 0, 1, 0, 0],
        seq![1u8, 0, 0, 0, 0, 0, 1, 0],
        seq![0u8, 0, 1, 1, 1, 0, 0, 0],
    ]
}

/// The cell at row `i`, column `j` is an in-bounds floor cell of the
/// sample maze.
pub open spec fn maze_cell_open(i: int, j: int) -> bool {
    0 <= i < 8 && 0 <= j < 8 && sample_maze()[i][j] == 0
}

/// The adjacency row of the cell at `(i, j)` in the maze graph: empty for
/// a wall, and for a floor cell its in-bounds floor neighbours above, to
/// the right, below and to the left, in that order.
pub open spec fn maze_adjacency_row(i: int, j: int) -> Seq<(GraphNodeIndex, ())> {
    if maze_cell_open(i, j) {
        (if maze_cell_open(i - 1, j) {
            seq![((8 * (i - 1) + j) as GraphNodeIndex, ())]
        } else {
            Seq::empty()
        }) + (if maze_cell_open(i, j + 1) {
            seq![((8 * i + j + 1) as GraphNodeIndex, ())]
        } else {
            Seq::empty()
        }) + (if maze_cell_open(i + 1, j) {
            seq![((8 * (i + 1) + j) as GraphNodeIndex, ())]
        } else {
            Seq::empty()
        }) + (if maze_cell_open(i, j - 1) {
            seq![((8 * i + j - 1) as GraphNodeIndex, ())]
        } else {
            Seq::empty()
        })
    } else {
        Seq::empty()
    }
}

/// The sample eight-by-eight maze as an indexed graph: every cell is a
/// node (row-major), a wall cell is simply disconnected, and every floor
/// cell is connected to its in-bounds floor neighbours above, to the
/// right, below and to the left, in that order.
pub fn construct_test_maze_as_graph() -> (g: Graph<Position, ()>)
    ensures
        g.wf(),
        g.nodes@.len() == 64,
        g.edges@.len() == 64,
        forall|i: int, j: int|
            0 <= i < 8 && 0 <= j < 8 ==> #[trigger] g.nodes@[8 * i + j] == (Position {
                i: i as usize,
                j: j as usize,
            }),
        forall|i: int, j: int|
            0 <= i < 8 && 0 <= j < 8 ==> (#[trigger] g.edges@[8 * i + j])@ == maze_adjacency_row(
                i,
                j,
            ),
{
    let maze: Vec<Vec<u8>> = vec![
        vec![1, 0, 1, 0, 0, 0, 1, 0],
        vec![0, 0, 1, 0, 0, 1, 0, 0],
        vec![0, 1, 1, 0, 1, 1, 0, 1],
        vec![0, 1, 1, 0, 0, 1, 0, 1],
        vec![0, 1, 1, 1, 0, 1, 0, 1],
        vec![0, 0, 1, 1, 0, 1, 0, 0],
        vec![1, 0, 0, 0, 0, 0, 1, 0],
        vec![0, 0, 1, 1, 1, 0, 0, 0],
    ];
    proof {
        assert(maze@.len() == 8);
        assert(maze@[0]@ =~= sample_maze()[0]);
        assert(maze@[1]@ =~= sample_maze()[1]);
        assert(maze@[2]@ =~= sample_maze()[2]);
        assert(maze@[3]@ =~= sample_maze()[3]);
        assert(maze@[4]@ =~= sample_maze()[4]);
        assert(maze@[5]@ =~= sample_maze()[5]);
        assert(maze@[6]@ =~= sample_maze()[6]);
        assert(maze@[7]@ =~= sample_maze()[7]);
    }
    let height = maze.len();
    let width = maze[0].len();
    let mut nodes: Vec<Position> = Vec::new();
    let mut edges: Vec<Vec<(GraphNodeIndex, ())>> = Vec::new();
    let mut i: usize = 0;
    while i < height
        invariant
            height == 8,
            width == 8,
            maze@.len() == 8,
            forall|r: int| 0 <= r < 8 ==> (#[trigger] maze@[r])@ == sample_maze()[r],
            i <= 8,
            nodes@.len() == i * 8,
            edges@.len() == i * 8,
            forall|u: int, k: int|
                0 <= u < edges@.len() && 0 <= k < edges@[u]@.len() ==> (#[trigger] edges@[u]@[k]).0
                    < 64,
            forall|r: int, c: int|
                0 <= r < 8 && 0 <= c < 8 && 8 * r + c < nodes@.len() ==> #[trigger] nodes@[8 * r
                    + c] == (Position { i: r as usize, j: c as usize }),
            forall|r: int, c: int|
                0 <= r < 8 && 0 <= c < 8 && 8 * r + c < edges@.len() ==> (#[trigger] edges@[8 * r
                    + c])@ == maze_adjacency_row(r, c),
        decreases height - i,
    {
        let mut j: usize = 0;
        while j < width
            invariant
                height == 8,
                width == 8,
                maze@.len() == 8,
                forall|r: int| 0 <= r < 8 ==> (#[trigger] maze@[r])@ == sample_maze()[r],
                i < 8,
                j <= 8,
                nodes@.len() == i * 8 + j,
                edges@.len() == i * 8 + j,
                forall|u: int, k: int|
                    0 <= u < edges@.len() && 0 <= k < edges@[u]@.len() ==> (#[trigger] edges@[u]@[
                        k]).0 < 64,
                forall|r: int, c: int|
                    0 <= r < 8 && 0 <= c < 8 && 8 * r + c < nodes@.len() ==> #[trigger] nodes@[8
                        * r + c] == (Position { i: r as usize, j: c as usize }),
                forall|r: int, c: int|
                    0 <= r < 8 && 0 <= c < 8 && 8 * r + c < edges@.len() ==> (#[trigger] edges@[8
                        * r + c])@ == maze_adjacency_row(r, c),
            decreases width - j,
        {
            let node_position = Position::new(i, j);
            nodes.push(node_position);
            let mut nbrs: Vec<(GraphNodeIndex, ())> = Vec::new();
            // a wall is a disconnected node; a floor cell is joined to each
            // in-bounds floor neighbour
            if maze[i][j] == 0 {
                if let Some(neighbour_position) = node_position.up() {
                    if maze[neighbour_position.i][neighbour_position.j] == 0 {
                        nbrs.push((neighbour_position.index(width), ()));
                    }
                }
                if let Some(neighbour_position) = node_position.right(width) {
                    if maze[neighbour_position.i][neighbour_position.j] == 0 {
                        nbrs.push((neighbour_position.index(width), ()));
                    }
                }
                if let Some(neighbour_position) = node_position.down(height) {
                    if maze[neighbour_position.i][neighbour_position.j] == 0 {
                        nbrs.push((neighbour_position.index(width), ()));
                    }
                }
                if let Some(neighbour_position) = node_position.left() {
                    if maze[neighbour_position.i][neighbour_position.j] == 0 {
                        nbrs.push((neighbour_position.index(width), ()));
                    }
                }
            }
            proof {
                assert(maze@[i as int]@[j as int] == sample_maze()[i as int][j as int]);
                if i > 0 {
                    assert(maze@[i - 1]@[j as int] == sample_maze()[i - 1][j as int]);
                }
                if j + 1 < 8 {
                    assert(maze@[i as int]@[j + 1] == sample_maze()[i as int][j + 1]);
                }
                if i + 1 < 8 {
                    assert(maze@[i + 1]@[j as int] == sample_maze()[i + 1][j as int]);
                }
                if j > 0 {
                    assert(maze@[i as int]@[j - 1] == sample_maze()[i as int][j - 1]);
                }
                assert(nbrs@ =~= maze_adjacency_row(i as int, j as int));
            }
            edges.push(nbrs);
            j = j + 1;
        }
        i = i + 1;
    }
    let g = Graph { nodes, edges };
    proof {
        assert(g.nodes@.len() == 64);
        assert(g.edges@.len() == 64);
        assert(g.adjacency().len() == 64);
        assert forall|u: int, k: int|
            0 <= u < g.adjacency().len() && 0 <= k < g.adjacency()[u].len() implies #[trigger] g.adjacency()[u][k]
            < g.adjacency().len() by {
            assert(g.adjacency()[u][k] == g.edges@[u]@[k].0);
        }
        assert(g.wf());
    }
    g
}

} // verus!
