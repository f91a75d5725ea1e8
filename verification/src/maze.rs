use vstd::prelude::*;
use crate::random::random_below;

verus! {

/// Wall flags of one cell, one per cardinal direction. `true` means the
/// wall is still present; `false` means the edge to that neighbor is open.
#[derive(Clone, Copy, Debug, PartialEq, Eq, Structural)]
pub struct Walls {
    pub up: bool,
    pub right: bool,
    pub down: bool,
    pub left: bool,
}

/// One grid position: its coordinates, its four wall flags, the tag of the
/// connected region it belongs to, and the marker of the start cell.
#[derive(Clone, Copy, Debug, PartialEq, Eq, Structural)]
pub struct Block {
    pub x: usize,
    pub y: usize,
    pub walls: Walls,
    pub region: usize,
    pub seed: bool,
}

/// The one checked failure: construction with zero rows or zero columns.
#[derive(Clone, Copy, Debug, PartialEq, Eq, Structural)]
pub enum MazeError {
    InvalidDimensions,
}

/// A rectangular grid of blocks in row-major order, addressed by
/// `index = y * cols + x`, together with the maze built so far.
pub struct Maze {
    pub cols: usize,
    pub rows: usize,
    pub blocks: Vec<Block>,
}

pub open spec fn all_present() -> Walls {
    Walls { up: true, right: true, down: true, left: true }
}

pub open spec fn open_right(w: Walls) -> Walls {
    Walls { up: w.up, right: false, down: w.down, left: w.left }
}

pub open spec fn open_left(w: Walls) -> Walls {
    Walls { up: w.up, right: w.right, down: w.down, left: false }
}

pub open spec fn open_up(w: Walls) -> Walls {
    Walls { up: false, right: w.right, down: w.down, left: w.left }
}

pub open spec fn open_down(w: Walls) -> Walls {
    Walls { up: w.up, right: w.right, down: false, left: w.left }
}

impl Maze {
    /// The number of cells the dimensions call for.
    pub open spec fn n(self) -> int {
        self.cols as int * self.rows as int
    }

    pub open spec fn in_bounds(self, i: int) -> bool {
        0 <= i < self.blocks@.len()
    }

    /// The block at `i` carries the coordinates that row-major order gives
    /// that index, and a region tag within range.
    pub open spec fn block_wf(self, i: int) -> bool {
        let b = self.blocks@[i];
        &&& b.x < self.cols
        &&& b.y < self.rows
        &&& b.region < self.blocks@.len()
        &&& i == b.y as int * self.cols as int + b.x as int
    }

    /// The two sides of one edge agree: a flag on this block matches the
    /// opposite flag on the neighbor it faces.
    pub open spec fn wall_sym_at(self, i: int) -> bool {
        let b = self.blocks@[i];
        &&& (b.x as int + 1 < self.cols as int ==> b.walls.right == self.blocks@[i + 1].walls.left)
        &&& (b.y as int + 1 < self.rows as int ==> b.walls.down
            == self.blocks@[i + self.cols as int].walls.up)
    }

    /// `s` is the single start cell.
    pub open spec fn seed_index_is(self, s: int) -> bool {
        &&& self.in_bounds(s)
        &&& self.blocks@[s].seed
        &&& forall|i: int|
            0 <= i < self.blocks@.len() && i != s ==> !(#[trigger] self.blocks@[i]).seed
    }

    pub open spec fn one_seed(self) -> bool {
        exists|s: int| self.seed_index_is(s)
    }

    /// Structural well-formedness: positive dimensions, a full row-major
    /// grid of blocks, symmetric walls, and exactly one seed cell.
    pub open spec fn wf(self) -> bool {
        &&& 1 <= self.cols
        &&& 1 <= self.rows
        &&& self.blocks@.len() == self.n()
        &&& forall|i: int| 0 <= i < self.blocks@.len() ==> #[trigger] self.block_wf(i)
        &&& forall|i: int| 0 <= i < self.blocks@.len() ==> #[trigger] self.wall_sym_at(i)
        &&& self.one_seed()
    }

    /// `j` is the right-hand neighbor of `i`.
    pub open spec fn h_adj(self, i: int, j: int) -> bool {
        &&& self.in_bounds(i)
        &&& self.in_bounds(j)
        &&& self.blocks@[j].y == self.blocks@[i].y
        &&& self.blocks@[j].x as int == self.blocks@[i].x as int + 1
    }

    /// `j` is the neighbor directly below `i`.
    pub open spec fn v_adj(self, i: int, j: int) -> bool {
        &&& self.in_bounds(i)
        &&& self.in_bounds(j)
        &&& self.blocks@[j].x == self.blocks@[i].x
        &&& self.blocks@[j].y as int == self.blocks@[i].y as int + 1
    }

    /// `i` and `j` share exactly one cardinal relation in the grid.
    pub open spec fn adj(self, i: int, j: int) -> bool {
        ||| self.h_adj(i, j)
        ||| self.h_adj(j, i)
        ||| self.v_adj(i, j)
        ||| self.v_adj(j, i)
    }

    /// The wall flag on the edge between two adjacent cells, read from the
    /// left (for a horizontal edge) or upper (for a vertical edge) side.
    pub open spec fn wall_between(self, i: int, j: int) -> bool {
        if self.h_adj(i, j) {
            self.blocks@[i].walls.right
        } else if self.h_adj(j, i) {
            self.blocks@[j].walls.right
        } else if self.v_adj(i, j) {
            self.blocks@[i].walls.down
        } else {
            self.blocks@[j].walls.down
        }
    }

    /// The edge between `i` and `j` has been opened.
    pub open spec fn edge_open(self, i: int, j: int) -> bool {
        self.adj(i, j) && !self.wall_between(i, j)
    }

    /// `j` is a candidate neighbor of `i`: grid-adjacent, the wall between
    /// them still present, and the two cells in different regions.
    pub open spec fn is_candidate(self, i: int, j: int) -> bool {
        &&& self.adj(i, j)
        &&& self.wall_between(i, j)
        &&& self.blocks@[i].region != self.blocks@[j].region
    }

    /// `i` is a frontier cell: it has at least one candidate neighbor.
    pub open spec fn has_candidate(self, i: int) -> bool {
        exists|j: int| self.is_candidate(i, j)
    }

    /// No frontier cell is left: the maze is complete.
    pub open spec fn complete(self) -> bool {
        forall|i: int| 0 <= i < self.blocks@.len() ==> !(#[trigger] self.has_candidate(i))
    }

    // ---- relations between a state and its successor ----

    /// Dimensions, coordinates and the seed marker carry over unchanged.
    pub open spec fn same_shape(self, post: Maze) -> bool {
        &&& post.cols == self.cols
        &&& post.rows == self.rows
        &&& post.blocks@.len() == self.blocks@.len()
        &&& forall|k: int|
            0 <= k < self.blocks@.len() ==> {
                &&& (#[trigger] post.blocks@[k]).x == self.blocks@[k].x
                &&& post.blocks@[k].y == self.blocks@[k].y
                &&& post.blocks@[k].seed == self.blocks@[k].seed
            }
    }

    pub open spec fn regions_same(self, post: Maze) -> bool {
        forall|k: int|
            0 <= k < self.blocks@.len() ==> (#[trigger] post.blocks@[k]).region
                == self.blocks@[k].region
    }

    pub open spec fn walls_same(self, post: Maze) -> bool {
        forall|k: int|
            0 <= k < self.blocks@.len() ==> (#[trigger] post.blocks@[k]).walls
                == self.blocks@[k].walls
    }

    pub open spec fn walls_same_except(self, post: Maze, a: int, b: int) -> bool {
        forall|k: int|
            0 <= k < self.blocks@.len() && k != a && k != b ==> (#[trigger] post.blocks@[k]).walls
                == self.blocks@[k].walls
    }

    /// The matching pair of flags on the edge between `a` and `b` is cleared;
    /// the other flags of `a` and `b` keep their values.
    pub open spec fn pair_opened(self, post: Maze, a: int, b: int) -> bool {
        if self.h_adj(a, b) {
            &&& post.blocks@[a].walls == open_right(self.blocks@[a].walls)
            &&& post.blocks@[b].walls == open_left(self.blocks@[b].walls)
        } else if self.h_adj(b, a) {
            &&& post.blocks@[a].walls == open_left(self.blocks@[a].walls)
            &&& post.blocks@[b].walls == open_right(self.blocks@[b].walls)
        } else if self.v_adj(a, b) {
            &&& post.blocks@[a].walls == open_down(self.blocks@[a].walls)
            &&& post.blocks@[b].walls == open_up(self.blocks@[b].walls)
        } else {
            &&& post.blocks@[a].walls == open_up(self.blocks@[a].walls)
            &&& post.blocks@[b].walls == open_down(self.blocks@[b].walls)
        }
    }

    /// Every cell holding the retiring tag of `b` is rewritten to the
    /// surviving tag of `a`; all other tags keep their values.
    pub open spec fn regions_merged(self, post: Maze, a: int, b: int) -> bool {
        forall|k: int|
            0 <= k < self.blocks@.len() ==> (#[trigger] post.blocks@[k]).region == (
            if self.blocks@[k].region == self.blocks@[b].region {
                self.blocks@[a].region
            } else {
                self.blocks@[k].region
            })
    }

    /// One full generation step from `self` to `post`: the edge between
    /// `a` and `b` is opened and the region of `b` is merged into that of `a`.
    pub open spec fn step_rel(self, post: Maze, a: int, b: int) -> bool {
        &&& self.same_shape(post)
        &&& self.pair_opened(post, a, b)
        &&& self.walls_same_except(post, a, b)
        &&& self.regions_merged(post, a, b)
    }

    /// Walls are only ever removed: a flag present in `post` was present in `self`.
    pub open spec fn walls_monotone(self, post: Maze) -> bool {
        forall|k: int|
            0 <= k < self.blocks@.len() ==> {
                let w0 = self.blocks@[k].walls;
                let w1 = (#[trigger] post.blocks@[k]).walls;
                &&& (w1.up ==> w0.up)
                &&& (w1.right ==> w0.right)
                &&& (w1.down ==> w0.down)
                &&& (w1.left ==> w0.left)
            }
    }

    // ---- counting model ----

    /// Open edges charged to cell `i`: its right edge and its down edge,
    /// so that every open edge of the grid is counted exactly once.
    pub open spec fn cell_open_count(self, i: int) -> int {
        let b = self.blocks@[i];
        (if b.x as int + 1 < self.cols as int && !b.walls.right {
            1int
        } else {
            0int
        }) + (if b.y as int + 1 < self.rows as int && !b.walls.down {
            1int
        } else {
            0int
        })
    }

    pub open spec fn open_count_to(self, k: int) -> int
        decreases k,
    {
        if k <= 0 {
            0
        } else {
            self.open_count_to(k - 1) + self.cell_open_count(k - 1)
        }
    }

    /// The number of open edges in the whole grid.
    pub open spec fn open_edge_count(self) -> int {
        self.open_count_to(self.blocks@.len() as int)
    }

    pub open spec fn region_seq(self) -> Seq<usize> {
        self.blocks@.map_values(|b: Block| b.region)
    }

    /// The number of distinct region tags in use.
    pub open spec fn region_count(self) -> int {
        self.region_seq().to_set().len() as int
    }

    /// Every step opens one edge and retires one region, so the two counts
    /// always balance against the number of cells.
    pub open spec fn counts_ok(self) -> bool {
        self.open_edge_count() + self.region_count() == self.blocks@.len()
    }

    // ---- reachability model ----

    /// `p` walks from `a` to `b` crossing only open edges.
    pub open spec fn valid_path(self, p: Seq<int>, a: int, b: int) -> bool {
        &&& p.len() >= 1
        &&& p[0] == a
        &&& p[p.len() - 1] == b
        &&& forall|k: int| 0 <= k < p.len() ==> self.in_bounds(#[trigger] p[k])
        &&& forall|k: int| 0 <= k < p.len() - 1 ==> self.edge_open(#[trigger] p[k], p[k + 1])
    }

    pub open spec fn reachable(self, a: int, b: int) -> bool {
        exists|p: Seq<int>| self.valid_path(p, a, b)
    }

    pub open spec fn same_region(self, a: int, b: int) -> bool {
        self.blocks@[a].region == self.blocks@[b].region
    }

    /// Region tags name exactly the connected components of the open walls:
    /// two cells share a tag if and only if one is reachable from the other.
    pub open spec fn regions_consistent(self) -> bool {
        forall|a: int, b: int|
            #![trigger self.same_region(a, b)]
            #![trigger self.reachable(a, b)]
            self.in_bounds(a) && self.in_bounds(b) ==> (self.same_region(a, b)
                <==> self.reachable(a, b))
    }

    /// The full invariant that construction establishes and every
    /// generation step preserves.
    pub open spec fn inv(self) -> bool {
        &&& self.wf()
        &&& self.counts_ok()
        &&& self.regions_consistent()
    }
}

// ---- coordinate arithmetic ----

pub proof fn lemma_rowmajor_unique(c: int, x1: int, y1: int, x2: int, y2: int)
    requires
        1 <= c,
        0 <= x1 < c,
        0 <= x2 < c,
        0 <= y1,
        0 <= y2,
        y1 * c + x1 == y2 * c + x2,
    ensures
        x1 == x2,
        y1 == y2,
{
    if y1 < y2 {
        assert(y1 * c + x1 < y2 * c + x2) by (nonlinear_arith)
            requires
                1 <= c,
                0 <= x1 < c,
                0 <= x2,
                y1 < y2,
        ;
    }
    if y2 < y1 {
        assert(y2 * c + x2 < y1 * c + x1) by (nonlinear_arith)
            requires
                1 <= c,
                0 <= x2 < c,
                0 <= x1,
                y2 < y1,
        ;
    }
}

pub proof fn lemma_rowmajor_bounds(c: int, r: int, x: int, y: int)
    requires
        1 <= c,
        1 <= r,
        0 <= x < c,
        0 <= y < r,
    ensures
        0 <= y * c + x < c * r,
{
    assert(0 <= y * c + x < c * r) by (nonlinear_arith)
        requires
            1 <= c,
            1 <= r,
            0 <= x < c,
            0 <= y < r,
    ;
}

impl Maze {
    /// The coordinates stored in two blocks determine their indices.
    pub proof fn lemma_coords_determine_index(self, i: int, j: int)
        requires
            self.wf(),
            self.in_bounds(i),
            self.in_bounds(j),
            self.blocks@[i].x == self.blocks@[j].x,
            self.blocks@[i].y == self.blocks@[j].y,
        ensures
            i == j,
    {
        assert(self.block_wf(i));
        assert(self.block_wf(j));
    }

    /// The cell above `i` sits at `i - cols`.
    pub proof fn lemma_up_neighbor(self, i: int)
        requires
            self.wf(),
            self.in_bounds(i),
            self.blocks@[i].y > 0,
        ensures
            self.in_bounds(i - self.cols),
            self.v_adj(i - self.cols, i),
            self.adj(i, i - self.cols),
            self.wall_between(i, i - self.cols) == self.blocks@[i].walls.up,
            self.wall_between(i - self.cols, i) == self.blocks@[i].walls.up,
    {
        let c = self.cols as int;
        let r = self.rows as int;
        let b = self.blocks@[i];
        let x = b.x as int;
        let y = b.y as int;
        assert(self.block_wf(i));
        let j = i - c;
        assert((y - 1) * c + x == y * c + x - c) by (nonlinear_arith);
        lemma_rowmajor_bounds(c, r, x, y - 1);
        assert(self.in_bounds(j));
        assert(self.block_wf(j));
        lemma_rowmajor_unique(
            c,
            self.blocks@[j].x as int,
            self.blocks@[j].y as int,
            x,
            y - 1,
        );
        assert(self.v_adj(j, i));
        assert(self.wall_sym_at(j));
        assert(self.wall_between(i, j) == self.blocks@[i].walls.up);
        assert(self.wall_between(j, i) == self.blocks@[i].walls.up);
    }

    /// The cell below `i` sits at `i + cols`.
    pub proof fn lemma_down_neighbor(self, i: int)
        requires
            self.wf(),
            self.in_bounds(i),
            self.blocks@[i].y as int + 1 < self.rows as int,
        ensures
            self.in_bounds(i + self.cols),
            self.v_adj(i, i + self.cols),
            self.adj(i, i + self.cols),
            self.wall_between(i, i + self.cols) == self.blocks@[i].walls.down,
            self.wall_between(i + self.cols, i) == self.blocks@[i].walls.down,
    {
        let c = self.cols as int;
        let r = self.rows as int;
        let b = self.blocks@[i];
        let x = b.x as int;
        let y = b.y as int;
        assert(self.block_wf(i));
        let j = i + c;
        assert((y + 1) * c + x == y * c + x + c) by (nonlinear_arith);
        lemma_rowmajor_bounds(c, r, x, y + 1);
        assert(self.in_bounds(j));
        assert(self.block_wf(j));
        lemma_rowmajor_unique(
            c,
            self.blocks@[j].x as int,
            self.blocks@[j].y as int,
            x,
            y + 1,
        );
        assert(self.v_adj(i, j));
        assert(self.wall_between(i, j) == self.blocks@[i].walls.down);
        assert(self.wall_between(j, i) == self.blocks@[i].walls.down);
    }

    /// The cell right of `i` sits at `i + 1`.
    pub proof fn lemma_right_neighbor(self, i: int)
        requires
            self.wf(),
            self.in_bounds(i),
            self.blocks@[i].x as int + 1 < self.cols as int,
        ensures
            self.in_bounds(i + 1),
            self.h_adj(i, i + 1),
            self.adj(i, i + 1),
            self.wall_between(i, i + 1) == self.blocks@[i].walls.right,
            self.wall_between(i + 1, i) == self.blocks@[i].walls.right,
    {
        let c = self.cols as int;
        let r = self.rows as int;
        let b = self.blocks@[i];
        let x = b.x as int;
        let y = b.y as int;
        assert(self.block_wf(i));
        let j = i + 1;
        lemma_rowmajor_bounds(c, r, x + 1, y);
        assert(self.in_bounds(j));
        assert(self.block_wf(j));
        lemma_rowmajor_unique(
            c,
            self.blocks@[j].x as int,
            self.blocks@[j].y as int,
            x + 1,
            y,
        );
        assert(self.h_adj(i, j));
        assert(!self.h_adj(j, i));
        assert(self.wall_between(i, j) == self.blocks@[i].walls.right);
        assert(self.wall_between(j, i) == self.blocks@[i].walls.right);
    }

    /// The cell left of `i` sits at `i - 1`.
    pub proof fn lemma_left_neighbor(self, i: int)
        requires
            self.wf(),
            self.in_bounds(i),
            self.blocks@[i].x > 0,
        ensures
            self.in_bounds(i - 1),
            self.h_adj(i - 1, i),
            self.adj(i, i - 1),
            self.wall_between(i, i - 1) == self.blocks@[i].walls.left,
            self.wall_between(i - 1, i) == self.blocks@[i].walls.left,
    {
        let c = self.cols as int;
        let r = self.rows as int;
        let b = self.blocks@[i];
        let x = b.x as int;
        let y = b.y as int;
        assert(self.block_wf(i));
        let j = i - 1;
        lemma_rowmajor_bounds(c, r, x - 1, y);
        assert(self.in_bounds(j));
        assert(self.block_wf(j));
        lemma_rowmajor_unique(
            c,
            self.blocks@[j].x as int,
            self.blocks@[j].y as int,
            x - 1,
            y,
        );
        assert(self.h_adj(j, i));
        assert(self.wall_sym_at(j));
        assert(self.wall_between(i, j) == self.blocks@[i].walls.left);
        assert(self.wall_between(j, i) == self.blocks@[i].walls.left);
    }

    /// Any neighbor of `i` is one of the four cells the grid layout gives,
    /// and never `i` itself.
    pub proof fn lemma_adj_cases(self, i: int, j: int)
        requires
            self.wf(),
            self.adj(i, j),
        ensures
            i != j,
            self.v_adj(j, i) ==> self.blocks@[i].y > 0 && j == i - self.cols,
            self.v_adj(i, j) ==> self.blocks@[i].y as int + 1 < self.rows as int && j == i
                + self.cols,
            self.h_adj(i, j) ==> self.blocks@[i].x as int + 1 < self.cols as int && j == i + 1,
            self.h_adj(j, i) ==> self.blocks@[i].x > 0 && j == i - 1,
    {
        assert(self.block_wf(i));
        assert(self.block_wf(j));
        if self.v_adj(j, i) {
            self.lemma_up_neighbor(i);
            self.lemma_coords_determine_index(j, i - self.cols);
        }
        if self.v_adj(i, j) {
            assert(self.blocks@[j].y < self.rows);
            self.lemma_down_neighbor(i);
            self.lemma_coords_determine_index(j, i + self.cols);
        }
        if self.h_adj(i, j) {
            assert(self.blocks@[j].x < self.cols);
            self.lemma_right_neighbor(i);
            self.lemma_coords_determine_index(j, i + 1);
        }
        if self.h_adj(j, i) {
            self.lemma_left_neighbor(i);
            self.lemma_coords_determine_index(j, i - 1);
        }
    }
}

impl Maze {
    /// Builds a `cols` by `rows` grid of blocks, all walls present, each
    /// block alone in its own region, and one block chosen uniformly at
    /// random as the seed. Rejects empty dimensions.
    pub fn new(cols: usize, rows: usize) -> (r: Result<Maze, MazeError>)
        requires
            cols as int * rows as int <= usize::MAX as int,
        ensures
            r is Ok <==> cols >= 1 && rows >= 1,
            r matches Ok(m) ==> {
                &&& m.wf()
                &&& m.inv()
                &&& m.open_edge_count() == 0
                &&& m.region_count() == m.blocks@.len()
                &&& m.cols == cols
                &&& m.rows == rows
                &&& forall|k: int|
                    0 <= k < m.blocks@.len() ==> {
                        &&& (#[trigger] m.blocks@[k]).walls == all_present()
                        &&& m.blocks@[k].region == k
                    }
            },
    {
        if cols == 0 || rows == 0 {
            return Err(MazeError::InvalidDimensions);
        }
        let mut blocks: Vec<Block> = Vec::new();
        let mut y: usize = 0;
        while y < rows
            invariant
                y <= rows,
                1 <= cols,
                1 <= rows,
                cols as int * rows as int <= usize::MAX as int,
                blocks@.len() == y as int * cols as int,
                forall|k: int|
                    0 <= k < blocks@.len() ==> {
                        let b = #[trigger] blocks@[k];
                        &&& b.x < cols
                        &&& b.y < rows
                        &&& k == b.y as int * cols as int + b.x as int
                        &&& b.region == k
                        &&& b.seed == false
                        &&& b.walls == all_present()
                    },
            decreases rows - y,
        {
            let mut x: usize = 0;
            proof {
                lemma_rowmajor_bounds(cols as int, rows as int, 0, y as int);
                assert(y as int * cols as int + cols as int <= cols as int * rows as int)
                    by (nonlinear_arith)
                    requires
                        0 <= y as int,
                        y as int + 1 <= rows as int,
                        1 <= cols,
                ;
            }
            while x < cols
                invariant
                    x <= cols,
                    y < rows,
                    1 <= cols,
                    1 <= rows,
                    cols as int * rows as int <= usize::MAX as int,
                    blocks@.len() == y as int * cols as int + x as int,
                    y as int * cols as int + cols as int <= cols as int * rows as int,
                    forall|k: int|
                        0 <= k < blocks@.len() ==> {
                            let b = #[trigger] blocks@[k];
                            &&& b.x < cols
                            &&& b.y < rows
                            &&& k == b.y as int * cols as int + b.x as int
                            &&& b.region == k
                            &&& b.seed == false
                            &&& b.walls == all_present()
                        },
                decreases cols - x,
            {
                let idx = blocks.len();
                blocks.push(
                    Block {
                        x,
                        y,
                        walls: Walls { up: true, right: true, down: true, left: true },
                        region: idx,
                        seed: false,
                    },
                );
                x += 1;
            }
            proof {
                assert((y as int + 1) * cols as int == y as int * cols as int + cols as int)
                    by (nonlinear_arith);
            }
            y += 1;
        }
        proof {
            assert(blocks@.len() == cols as int * rows as int) by (nonlinear_arith)
                requires
                    blocks@.len() == rows as int * cols as int,
            ;
            assert(cols as int * rows as int >= 1) by (nonlinear_arith)
                requires
                    1 <= cols,
                    1 <= rows,
            ;
        }
        let s = random_below(blocks.len());
        let mut chosen = blocks[s];
        chosen.seed = true;
        blocks[s] = chosen;
        let m = Maze { cols, rows, blocks };
        proof {
            assert forall|i: int| 0 <= i < m.blocks@.len() implies #[trigger] m.block_wf(i) by {}
            assert forall|i: int| 0 <= i < m.blocks@.len() implies #[trigger] m.wall_sym_at(i) by {
                let b = m.blocks@[i];
                if b.x as int + 1 < m.cols as int {
                    lemma_rowmajor_bounds(cols as int, rows as int, b.x as int + 1, b.y as int);
                }
                if b.y as int + 1 < m.rows as int {
                    assert((b.y as int + 1) * cols as int == b.y as int * cols as int
                        + cols as int) by (nonlinear_arith);
                    lemma_rowmajor_bounds(cols as int, rows as int, b.x as int, b.y as int + 1);
                }
            }
            assert(m.seed_index_is(s as int));
            crate::laws::lemma_initial_counts(m);
            crate::laws::lemma_initial_consistent(m);
        }
        Ok(m)
    }

    /// The candidate neighbors of the cell at `index`, examined in the
    /// fixed order up, right, down, left: exactly those grid neighbors
    /// that still have a wall toward `index` and belong to another region.
    pub fn possible_directions(&self, index: usize) -> (r: Vec<usize>)
        requires
            self.wf(),
            index < self.blocks@.len(),
        ensures
            forall|k: int|
                0 <= k < r@.len() ==> self.is_candidate(index as int, #[trigger] r@[k] as int),
            forall|j: usize|
                #[trigger] self.is_candidate(index as int, j as int) ==> r@.contains(j),
            r@.no_duplicates(),
            r@.len() > 0 <==> self.has_candidate(index as int),
    {
        let mut r: Vec<usize> = Vec::new();
        let n = self.blocks.len();
        let b = self.blocks[index];
        let i = index;
        proof {
            assert(self.blocks@.len() == n);
            assert(self.block_wf(i as int));
        }
        if b.y > 0 {
            proof {
                self.lemma_up_neighbor(i as int);
            }
            let j = i - self.cols;
            if b.walls.up && self.blocks[j].region != b.region {
                r.push(j);
            }
        }
        if b.x + 1 < self.cols {
            proof {
                self.lemma_right_neighbor(i as int);
            }
            let j = i + 1;
            if b.walls.right && self.blocks[j].region != b.region {
                r.push(j);
            }
        }
        if b.y + 1 < self.rows {
            proof {
                self.lemma_down_neighbor(i as int);
            }
            let j = i + self.cols;
            if b.walls.down && self.blocks[j].region != b.region {
                r.push(j);
            }
        }
        if b.x > 0 {
            proof {
                self.lemma_left_neighbor(i as int);
            }
            let j = i - 1;
            if b.walls.left && self.blocks[j].region != b.region {
                r.push(j);
            }
        }
        proof {
            broadcast use vstd::seq_lib::lemma_seq_contains_after_push;

            assert forall|j: usize| #[trigger]
                self.is_candidate(i as int, j as int) implies r@.contains(j) by {
                self.lemma_adj_cases(i as int, j as int);
            }
            if self.has_candidate(i as int) {
                let j = choose|j: int| self.is_candidate(i as int, j);
                assert(self.is_candidate(i as int, (j as usize) as int));
                assert(r@.contains(j as usize));
            }
            if r@.len() > 0 {
                assert(self.is_candidate(i as int, r@[0] as int));
                assert(self.has_candidate(i as int));
            }
        }
        r
    }
}

// ---- preservation helpers ----

/// A state with the same shape, in-range region tags and symmetric walls
/// is well-formed again.
proof fn lemma_wf_preserved(pre: Maze, post: Maze)
    requires
        pre.wf(),
        pre.same_shape(post),
        forall|i: int|
            0 <= i < pre.blocks@.len() ==> (#[trigger] post.blocks@[i]).region
                < pre.blocks@.len(),
        forall|i: int| 0 <= i < pre.blocks@.len() ==> #[trigger] post.wall_sym_at(i),
    ensures
        post.wf(),
{
    assert forall|i: int| 0 <= i < post.blocks@.len() implies #[trigger] post.block_wf(i) by {
        assert(pre.block_wf(i));
    }
    let s = choose|s: int| pre.seed_index_is(s);
    assert(post.seed_index_is(s));
}

/// Unchanged walls stay symmetric.
proof fn lemma_sym_from_same_walls(pre: Maze, post: Maze)
    requires
        pre.wf(),
        pre.same_shape(post),
        pre.walls_same(post),
    ensures
        forall|i: int| 0 <= i < pre.blocks@.len() ==> #[trigger] post.wall_sym_at(i),
{
    assert forall|i: int| 0 <= i < pre.blocks@.len() implies #[trigger] post.wall_sym_at(i) by {
        assert(pre.wall_sym_at(i));
        assert(pre.block_wf(i));
        let bi = pre.blocks@[i];
        if bi.x as int + 1 < pre.cols as int {
            pre.lemma_right_neighbor(i);
        }
        if bi.y as int + 1 < pre.rows as int {
            pre.lemma_down_neighbor(i);
        }
    }
}

/// Clearing the two matching flags of one edge keeps the walls symmetric.
proof fn lemma_sym_after_open(pre: Maze, post: Maze, a: int, b: int)
    requires
        pre.wf(),
        pre.adj(a, b),
        pre.same_shape(post),
        pre.pair_opened(post, a, b),
        pre.walls_same_except(post, a, b),
    ensures
        forall|i: int| 0 <= i < pre.blocks@.len() ==> #[trigger] post.wall_sym_at(i),
{
    pre.lemma_adj_cases(a, b);
    assert forall|i: int| 0 <= i < pre.blocks@.len() implies #[trigger] post.wall_sym_at(i) by {
        assert(pre.wall_sym_at(i));
        assert(pre.block_wf(i));
        let bi = pre.blocks@[i];
        if bi.x as int + 1 < pre.cols as int {
            pre.lemma_right_neighbor(i);
        }
        if bi.y as int + 1 < pre.rows as int {
            pre.lemma_down_neighbor(i);
        }
    }
}

impl Maze {
    /// Clears the matching pair of flags on a horizontal edge: `right` of
    /// the left cell and `left` of the right cell.
    fn open_pair_h(&mut self, lft: usize, rgt: usize)
        requires
            old(self).wf(),
            old(self).h_adj(lft as int, rgt as int),
        ensures
            final(self).wf(),
            old(self).same_shape(*final(self)),
            old(self).regions_same(*final(self)),
            old(self).walls_same_except(*final(self), lft as int, rgt as int),
            old(self).walls_monotone(*final(self)),
            final(self).blocks@[lft as int].walls == open_right(old(self).blocks@[lft as int].walls),
            final(self).blocks@[rgt as int].walls == open_left(old(self).blocks@[rgt as int].walls),
    {
        self.blocks[lft].walls.right = false;
        self.blocks[rgt].walls.left = false;
        proof {
            let pre = *old(self);
            pre.lemma_adj_cases(lft as int, rgt as int);
            assert(pre.pair_opened(*self, lft as int, rgt as int));
            lemma_sym_after_open(pre, *self, lft as int, rgt as int);
            assert forall|i: int|
                0 <= i < pre.blocks@.len() implies (#[trigger] self.blocks@[i]).region
                < pre.blocks@.len() by {
                assert(pre.block_wf(i));
            }
            lemma_wf_preserved(pre, *self);
        }
    }

    /// Clears the matching pair of flags on a vertical edge: `down` of the
    /// upper cell and `up` of the lower cell.
    fn open_pair_v(&mut self, top: usize, bottom: usize)
        requires
            old(self).wf(),
            old(self).v_adj(top as int, bottom as int),
        ensures
            final(self).wf(),
            old(self).same_shape(*final(self)),
            old(self).regions_same(*final(self)),
            old(self).walls_same_except(*final(self), top as int, bottom as int),
            old(self).walls_monotone(*final(self)),
            final(self).blocks@[top as int].walls == open_down(old(self).blocks@[top as int].walls),
            final(self).blocks@[bottom as int].walls == open_up(
                old(self).blocks@[bottom as int].walls,
            ),
    {
        self.blocks[top].walls.down = false;
        self.blocks[bottom].walls.up = false;
        proof {
            let pre = *old(self);
            pre.lemma_adj_cases(top as int, bottom as int);
            assert(pre.pair_opened(*self, top as int, bottom as int));
            lemma_sym_after_open(pre, *self, top as int, bottom as int);
            assert forall|i: int|
                0 <= i < pre.blocks@.len() implies (#[trigger] self.blocks@[i]).region
                < pre.blocks@.len() by {
                assert(pre.block_wf(i));
            }
            lemma_wf_preserved(pre, *self);
        }
    }

    /// Removes the wall between two adjacent cells: clears the flag on
    /// `current_index` facing `next_index` and the opposite flag on
    /// `next_index`. Nothing else changes.
    pub fn break_wall(&mut self, current_index: usize, next_index: usize)
        requires
            old(self).wf(),
            old(self).adj(current_index as int, next_index as int),
        ensures
            final(self).wf(),
            old(self).same_shape(*final(self)),
            old(self).regions_same(*final(self)),
            old(self).pair_opened(*final(self), current_index as int, next_index as int),
            old(self).walls_same_except(*final(self), current_index as int, next_index as int),
            old(self).walls_monotone(*final(self)),
    {
        let a = current_index;
        let b = next_index;
        proof {
            old(self).lemma_adj_cases(a as int, b as int);
            assert(old(self).block_wf(a as int));
            assert(old(self).block_wf(b as int));
        }
        let ca = self.blocks[a];
        let cb = self.blocks[b];
        if cb.y + 1 == ca.y {
            self.open_pair_v(b, a);
        } else if ca.x + 1 == cb.x {
            self.open_pair_h(a, b);
        } else if ca.y + 1 == cb.y {
            self.open_pair_v(a, b);
        } else {
            self.open_pair_h(b, a);
        }
    }

    /// Merges two regions: every cell tagged with the region of
    /// `next_index` is rewritten to the region of `current_index`.
    pub fn join_indexes(&mut self, current_index: usize, next_index: usize)
        requires
            old(self).wf(),
            current_index < old(self).blocks@.len(),
            next_index < old(self).blocks@.len(),
        ensures
            final(self).wf(),
            old(self).same_shape(*final(self)),
            old(self).walls_same(*final(self)),
            old(self).regions_merged(*final(self), current_index as int, next_index as int),
            old(self).walls_monotone(*final(self)),
    {
        let new_region = self.blocks[current_index].region;
        let old_region = self.blocks[next_index].region;
        let n = self.blocks.len();
        proof {
            assert(old(self).block_wf(current_index as int));
        }
        let mut k: usize = 0;
        while k < n
            invariant
                k <= n,
                n == self.blocks@.len(),
                old(self).wf(),
                self.cols == old(self).cols,
                self.rows == old(self).rows,
                self.blocks@.len() == old(self).blocks@.len(),
                current_index < n,
                next_index < n,
                new_region == old(self).blocks@[current_index as int].region,
                old_region == old(self).blocks@[next_index as int].region,
                new_region < n,
                forall|i: int|
                    0 <= i < n ==> {
                        let b0 = old(self).blocks@[i];
                        let b1 = (#[trigger] self.blocks@[i]);
                        &&& b1.x == b0.x
                        &&& b1.y == b0.y
                        &&& b1.seed == b0.seed
                        &&& b1.walls == b0.walls
                    },
                forall|i: int|
                    0 <= i < k ==> (#[trigger] self.blocks@[i]).region == (
                    if old(self).blocks@[i].region == old_region {
                        new_region
                    } else {
                        old(self).blocks@[i].region
                    }),
                forall|i: int|
                    k <= i < n ==> (#[trigger] self.blocks@[i]).region
                        == old(self).blocks@[i].region,
            decreases n - k,
        {
            if self.blocks[k].region == old_region {
                self.blocks[k].region = new_region;
            }
            k += 1;
        }
        proof {
            let pre = *old(self);
            assert forall|i: int|
                0 <= i < pre.blocks@.len() implies (#[trigger] self.blocks@[i]).region
                < pre.blocks@.len() by {
                assert(pre.block_wf(i));
            }
            lemma_sym_from_same_walls(pre, *self);
            lemma_wf_preserved(pre, *self);
        }
    }

    /// Picks a neighbor to merge with: `None` when the cell has no
    /// candidate, the sole candidate when there is one, and otherwise a
    /// uniformly random choice among the candidates.
    pub fn get_visited_neighborhood(&self, index: usize) -> (r: Option<usize>)
        requires
            self.wf(),
            index < self.blocks@.len(),
        ensures
            r is None <==> !self.has_candidate(index as int),
            r matches Some(j) ==> self.is_candidate(index as int, j as int),
    {
        let dirs = self.possible_directions(index);
        if dirs.len() == 0 {
            None
        } else if dirs.len() == 1 {
            Some(dirs[0])
        } else {
            let pick = random_below(dirs.len());
            Some(dirs[pick])
        }
    }

    /// Scans all cells for frontier cells and returns one of them uniformly
    /// at random, or `None` when the maze is complete.
    pub fn get_random_possible_block(&mut self) -> (r: Option<usize>)
        requires
            old(self).wf(),
        ensures
            *final(self) == *old(self),
            r is None <==> old(self).complete(),
            r matches Some(i) ==> i < old(self).blocks@.len() && old(self).has_candidate(
                i as int,
            ),
    {
        let n = self.blocks.len();
        let mut keys: Vec<usize> = Vec::new();
        let mut idx: usize = 0;
        while idx < n
            invariant
                idx <= n,
                *self == *old(self),
                self.wf(),
                n == self.blocks@.len(),
                forall|k: int|
                    0 <= k < keys@.len() ==> (#[trigger] keys@[k]) < n && self.has_candidate(
                        keys@[k] as int,
                    ),
                keys@.len() == 0 ==> forall|i: int| 0 <= i < idx ==> !self.has_candidate(i),
            decreases n - idx,
        {
            let dirs = self.possible_directions(idx);
            if dirs.len() > 0 {
                keys.push(idx);
            }
            idx += 1;
        }
        if keys.len() == 0 {
            return None;
        }
        let pick = random_below(keys.len());
        Some(keys[pick])
    }

    /// One generation tick. Picks a frontier cell and one of its candidate
    /// neighbors, opens the edge between them, merges their regions, and
    /// reports progress; once the maze is complete it does nothing and
    /// reports `false`, and every later call does the same.
    pub fn run(&mut self) -> (progress: bool)
        requires
            old(self).inv(),
        ensures
            final(self).inv(),
            progress <==> !old(self).complete(),
            !progress ==> *final(self) == *old(self) && final(self).complete(),
            progress ==> exists|a: int, b: int|
                old(self).is_candidate(a, b) && old(self).step_rel(*final(self), a, b),
            old(self).walls_monotone(*final(self)),
    {
        let random_way = self.get_random_possible_block();
        match random_way {
            Some(index) => {
                let next_block_opt = self.get_visited_neighborhood(index);
                match next_block_opt {
                    Some(next_block) => {
                        let ghost pre = *self;
                        self.break_wall(index, next_block);
                        let ghost mid = *self;
                        self.join_indexes(index, next_block);
                        proof {
                            let a = index as int;
                            let b = next_block as int;
                            assert(pre.same_shape(*self));
                            assert(pre.pair_opened(*self, a, b)) by {
                                assert(mid.walls_same(*self));
                                assert(pre.pair_opened(mid, a, b));
                            }
                            assert(pre.walls_same_except(*self, a, b));
                            assert(pre.regions_merged(*self, a, b)) by {
                                assert(pre.regions_same(mid));
                                assert(mid.regions_merged(*self, a, b));
                            }
                            assert(pre.is_candidate(a, b) && pre.step_rel(*self, a, b));
                            crate::laws::lemma_step_counts(pre, *self, a, b);
                            crate::laws::lemma_step_consistent(pre, *self, a, b);
                        }
                        true
                    },
                    None => {
                        proof {
                            assert(false);
                        }
                        false
                    },
                }
            },
            None => false,
        }
    }

    /// Repeatedly runs generation ticks until one reports no progress.
    /// The loop terminates because every tick retires one region tag, and
    /// it leaves a spanning tree: every cell in one region, with exactly
    /// one edge fewer than there are cells.
    pub fn run_to_completion(&mut self)
        requires
            old(self).inv(),
        ensures
            final(self).inv(),
            final(self).complete(),
            final(self).region_count() == 1,
            final(self).open_edge_count() == final(self).blocks@.len() - 1,
            forall|a: int, b: int|
                final(self).in_bounds(a) && final(self).in_bounds(b)
                    ==> #[trigger] final(self).same_region(a, b),
    {
        loop
            invariant
                self.inv(),
            ensures
                self.inv(),
                self.complete(),
            decreases self.region_count(),
        {
            let ghost pre = *self;
            let progressed = self.run();
            if !progressed {
                break;
            }
            proof {
                let (a, b): (int, int) = choose|a: int, b: int|
                    pre.is_candidate(a, b) && pre.step_rel(*self, a, b);
                crate::laws::lemma_step_counts(pre, *self, a, b);
            }
        }
        proof {
            crate::laws::lemma_complete_spanning(*self);
        }
    }
}

} // verus!
