use vstd::prelude::*;
use vstd::seq_lib::*;
use rand::rngs::StdRng;
use crate::rng::shuffle_cells;
use crate::pick::pick_frontier_index;

verus! {

/// State of one grid cell during and after maze generation.
#[derive(Clone, Copy, PartialEq, Eq, Structural, Debug)]
pub enum CellType {
    /// Permanently impassable.
    Wall,
    /// Permanently passable: part of the maze.
    Empty,
    /// Adjacent to at least one `Empty` cell but not yet resolved.
    ExposedUndertermined,
    /// Not yet adjacent to any `Empty` cell; the initial state of every cell.
    UnexposedUndertermined,
}

/// True of the two cell states that are not yet resolved to `Wall` or `Empty`.
pub open spec fn is_undetermined(c: CellType) -> bool {
    c == CellType::ExposedUndertermined || c == CellType::UnexposedUndertermined
}

/// True when the cells `(y1, x1)` and `(y2, x2)` share a grid edge.
pub open spec fn orth_adjacent(y1: int, x1: int, y2: int, x2: int) -> bool {
    ||| y1 == y2 && (x2 == x1 + 1 || x1 == x2 + 1)
    ||| x1 == x2 && (y2 == y1 + 1 || y1 == y2 + 1)
}

/// True when the cells `(y1, x1)` and `(y2, x2)` touch only at a corner.
pub open spec fn diag_adjacent(y1: int, x1: int, y2: int, x2: int) -> bool {
    (y2 == y1 + 1 || y1 == y2 + 1) && (x2 == x1 + 1 || x1 == x2 + 1)
}

/// How many cells of a row-major buffer are still undetermined.
pub closed spec fn und_count(s: Seq<CellType>) -> nat
    decreases s.len(),
{
    if s.len() == 0 {
        0
    } else {
        und_count(s.drop_last()) + (if is_undetermined(s.last()) {
            1nat
        } else {
            0nat
        })
    }
}

/// Updating one entry of a buffer changes the undetermined count exactly by the
/// weights of the entry leaving and the entry arriving.
proof fn lemma_und_count_update(s: Seq<CellType>, i: int, v: CellType)
    requires
        0 <= i < s.len(),
    ensures
        und_count(s.update(i, v)) == und_count(s) + (if is_undetermined(v) {
            1int
        } else {
            0int
        }) - (if is_undetermined(s[i]) {
            1int
        } else {
            0int
        }),
    decreases s.len(),
{
    let t = s.update(i, v);
    assert(t.len() == s.len());
    if i == s.len() - 1 {
        assert(t.drop_last() =~= s.drop_last());
        assert(t.last() == v);
    } else {
        assert(t.drop_last() =~= s.drop_last().update(i, v));
        assert(t.last() == s.last());
        lemma_und_count_update(s.drop_last(), i, v);
    }
}

/// Position of cell `(y, x)` in a row-major buffer of `h` rows and `w` columns.
proof fn lemma_row_major_bounds(h: int, w: int, y: int, x: int)
    requires
        0 <= y < h,
        0 <= x < w,
    ensures
        0 <= y * w + x < h * w,
{
    assert(y * w + x < h * w) by (nonlinear_arith)
        requires
            0 <= y < h,
            0 <= x < w,
    ;
    assert(0 <= y * w) by (nonlinear_arith)
        requires
            0 <= y,
            0 <= w,
    ;
}

/// Row-major positions determine the cell coordinates.
proof fn lemma_row_major_injective(w: int, y1: int, x1: int, y2: int, x2: int)
    requires
        1 <= w,
        0 <= x1 < w,
        0 <= x2 < w,
        y1 * w + x1 == y2 * w + x2,
    ensures
        y1 == y2 && x1 == x2,
{
    assert(y1 == y2 && x1 == x2) by (nonlinear_arith)
        requires
            1 <= w,
            0 <= x1 < w,
            0 <= x2 < w,
            y1 * w + x1 == y2 * w + x2,
    ;
}

/// What survives a shuffle: a permutation of a duplicate-free sequence keeps
/// its length, its membership and its freedom from duplicates.
proof fn lemma_permutation_facts(pre: Seq<(usize, usize)>, post: Seq<(usize, usize)>)
    requires
        post.to_multiset() == pre.to_multiset(),
        pre.no_duplicates(),
    ensures
        post.len() == pre.len(),
        post.no_duplicates(),
        forall|e: (usize, usize)| post.contains(e) <==> pre.contains(e),
{
    broadcast use vstd::seq_lib::group_to_multiset_ensures;

    assert(pre.to_multiset().len() == pre.len());
    assert(post.to_multiset().len() == post.len());
    pre.lemma_multiset_has_no_duplicates();
    post.lemma_multiset_has_no_duplicates_conv();
    assert forall|e: (usize, usize)| post.contains(e) <==> pre.contains(e) by {
        assert(pre.contains(e) <==> pre.to_multiset().count(e) > 0);
        assert(post.contains(e) <==> post.to_multiset().count(e) > 0);
    }
}

/// Removing one entry of a duplicate-free sequence leaves it duplicate-free.
proof fn lemma_remove_no_duplicates(s: Seq<(usize, usize)>, i: int)
    requires
        0 <= i < s.len(),
        s.no_duplicates(),
    ensures
        s.remove(i).no_duplicates(),
{
    let t = s.remove(i);
    s.remove_ensures(i);
    assert forall|k1: int, k2: int|
        0 <= k1 < t.len() && 0 <= k2 < t.len() && k1 != k2 implies t[k1] != t[k2] by {
        let j1: int = if k1 < i {
            k1
        } else {
            k1 + 1
        };
        let j2: int = if k2 < i {
            k2
        } else {
            k2 + 1
        };
        assert(t[k1] == s[j1]);
        assert(t[k2] == s[j2]);
    }
}

/// The glyph that renders one cell state: a space for open, `#` for a wall,
/// and `,` / `?` for cells an aborted generation run left unresolved.
pub open spec fn glyph(c: CellType) -> char {
    match c {
        CellType::Empty => ' ',
        CellType::ExposedUndertermined => ',',
        CellType::UnexposedUndertermined => '?',
        CellType::Wall => '#',
    }
}

/// A rectangular maze grid, produced by a randomized growing-tree algorithm.
pub struct GrowingTreeMaze {
    /// Maze grid width.
    width: usize,
    /// Maze grid height.
    height: usize,
    /// Maze grid, row-major: the cell in row `y`, column `x` is at `y * width + x`.
    grid: Vec<CellType>,
}

impl GrowingTreeMaze {
    /// Grid width as a mathematical integer.
    pub closed spec fn spec_width(self) -> int {
        self.width as int
    }

    /// Grid height as a mathematical integer.
    pub closed spec fn spec_height(self) -> int {
        self.height as int
    }

    /// Well-formed: positive dimensions and a row-major buffer of exactly
    /// `width * height` cells.
    pub closed spec fn wf(self) -> bool {
        &&& 1 <= self.width
        &&& 1 <= self.height
        &&& self.grid@.len() == self.spec_height() * self.spec_width()
    }

    /// True when `(y, x)` lies inside the grid.
    pub open spec fn in_bounds(self, y: int, x: int) -> bool {
        0 <= y < self.spec_height() && 0 <= x < self.spec_width()
    }

    /// The state of the cell in row `y`, column `x`.
    pub closed spec fn cell(self, y: int, x: int) -> CellType {
        self.grid@[y * self.spec_width() + x]
    }

    /// How many cells of the grid are still undetermined.
    pub closed spec fn und(self) -> nat {
        und_count(self.grid@)
    }

    /// True when `(y, x)` is a passable cell of the grid.
    pub open spec fn open_at(self, y: int, x: int) -> bool {
        self.in_bounds(y, x) && self.cell(y, x) == CellType::Empty
    }

    /// How many of the four orthogonal neighbors of `(y, x)` are open.
    pub open spec fn open_neighbor_count(self, y: int, x: int) -> int {
        (if self.open_at(y, x - 1) {
            1int
        } else {
            0int
        }) + (if self.open_at(y, x + 1) {
            1int
        } else {
            0int
        }) + (if self.open_at(y - 1, x) {
            1int
        } else {
            0int
        }) + (if self.open_at(y + 1, x) {
            1int
        } else {
            0int
        })
    }

    /// No diagonal of the single open neighbor of `(y, x)` conflicts: for the
    /// one open orthogonal direction, the two diagonals of `(y, x)` on the far
    /// side of that direction are closed.
    pub open spec fn diag_clear(self, y: int, x: int) -> bool {
        &&& self.open_at(y, x - 1) ==> !self.open_at(y - 1, x + 1) && !self.open_at(y + 1, x + 1)
        &&& self.open_at(y, x + 1) ==> !self.open_at(y - 1, x - 1) && !self.open_at(y + 1, x - 1)
        &&& self.open_at(y - 1, x) ==> !self.open_at(y + 1, x - 1) && !self.open_at(y + 1, x + 1)
        &&& self.open_at(y + 1, x) ==> !self.open_at(y - 1, x - 1) && !self.open_at(y - 1, x + 1)
    }

    /// Admissibility: the cell qualifies to become open when it has exactly one
    /// open orthogonal neighbor and, when diagonal joins are forbidden, no
    /// open diagonal would touch the new passage only at a corner.
    pub open spec fn spec_check(self, y: int, x: int, nodiagonals: bool) -> bool {
        &&& self.open_neighbor_count(y, x) == 1
        &&& nodiagonals ==> self.diag_clear(y, x)
    }

    /// Every cell of the grid is still in its initial, unexposed state.
    pub open spec fn all_unexposed(self) -> bool {
        forall|i: int, j: int|
            self.in_bounds(i, j) ==> #[trigger] self.cell(i, j)
                == CellType::UnexposedUndertermined
    }

    /// Every cell of the grid is resolved: a wall or a space.
    pub open spec fn all_resolved(self) -> bool {
        forall|i: int, j: int|
            self.in_bounds(i, j) ==> (#[trigger] self.cell(i, j) == CellType::Wall || self.cell(
                i,
                j,
            ) == CellType::Empty)
    }

    /// `p` is a walk through open cells from `(ay, ax)` to `(by, bx)`: it is
    /// nonempty, each entry is open, and consecutive entries share a grid
    /// edge.
    pub open spec fn is_path(self, p: Seq<(int, int)>, ay: int, ax: int, by: int, bx: int) -> bool {
        &&& p.len() >= 1
        &&& p[0] == (ay, ax)
        &&& p[p.len() - 1] == (by, bx)
        &&& forall|k: int| 0 <= k < p.len() ==> self.open_at((#[trigger] p[k]).0, p[k].1)
        &&& forall|k: int|
            0 <= k < p.len() - 1 ==> orth_adjacent(
                (#[trigger] p[k]).0,
                p[k].1,
                p[k + 1].0,
                p[k + 1].1,
            )
    }

    /// Some walk through open cells joins `(ay, ax)` to `(by, bx)`.
    pub open spec fn reachable(self, ay: int, ax: int, by: int, bx: int) -> bool {
        exists|p: Seq<(int, int)>| self.is_path(p, ay, ax, by, bx)
    }

    /// The open cells form one component: each is reachable from `(sy, sx)`.
    pub open spec fn connected_from(self, sy: int, sx: int) -> bool {
        forall|i: int, j: int| #[trigger] self.open_at(i, j) ==> self.reachable(sy, sx, i, j)
    }

    /// No two open cells touch only at a corner: whenever two open cells are
    /// diagonally adjacent, one of the two cells they both border is open too.
    pub open spec fn no_diagonal_joins(self) -> bool {
        forall|y: int, x: int, i: int, j: int|
            #![trigger self.open_at(y, x), self.open_at(i, j)]
            self.open_at(y, x) && self.open_at(i, j) && diag_adjacent(y, x, i, j) ==> self.open_at(
                y,
                j,
            ) || self.open_at(i, x)
    }

    /// Corridors are one cell wide: no two-by-two block of cells is fully
    /// open. Each cell is carved only with a single open neighbor, so the
    /// last corner of such a block can never have been admissible.
    pub open spec fn no_open_blocks(self) -> bool {
        forall|y: int, x: int|
            !(#[trigger] self.open_at(y, x) && self.open_at(y, x + 1) && self.open_at(y + 1, x)
                && self.open_at(y + 1, x + 1))
    }

    /// Exposure bookkeeping: a cell is unexposed only while no orthogonal
    /// neighbor is open, and exposed only once at least one is.
    pub open spec fn exposure_ok(self) -> bool {
        forall|y: int, x: int|
            #![trigger self.cell(y, x)]
            self.in_bounds(y, x) ==> {
                &&& (self.cell(y, x) == CellType::UnexposedUndertermined
                    ==> self.open_neighbor_count(y, x) == 0)
                &&& (self.cell(y, x) == CellType::ExposedUndertermined
                    ==> self.open_neighbor_count(y, x) >= 1)
            }
    }

    /// The wall at `(y, x)` stays inadmissible however the maze grows on:
    /// either it already borders two open cells, or opening it would join an
    /// open diagonal only at a corner.
    pub open spec fn wall_blocked_at(self, y: int, x: int) -> bool {
        self.open_neighbor_count(y, x) >= 2 || !self.diag_clear(y, x)
    }

    /// Every wall of the grid is permanently inadmissible.
    pub open spec fn walls_blocked(self) -> bool {
        forall|y: int, x: int|
            #![trigger self.cell(y, x)]
            self.in_bounds(y, x) && self.cell(y, x) == CellType::Wall ==> self.wall_blocked_at(
                y,
                x,
            )
    }

    /// Every wall of the grid fails the admissibility test: the maze is
    /// maximal, in that no wall could have become a space instead.
    pub open spec fn walls_unadmissible(self) -> bool {
        forall|y: int, x: int|
            #![trigger self.cell(y, x)]
            self.in_bounds(y, x) && self.cell(y, x) == CellType::Wall ==> !self.spec_check(
                y,
                x,
                true,
            )
    }

    /// Every cell open in `m1` is open in `m2`, over equal dimensions.
    pub open spec fn preserves_open(m1: Self, m2: Self) -> bool {
        &&& m2.spec_width() == m1.spec_width()
        &&& m2.spec_height() == m1.spec_height()
        &&& forall|i: int, j: int| #[trigger] m1.open_at(i, j) ==> m2.open_at(i, j)
    }

    /// Position of cell `(y, x)` in the row-major buffer, together with the
    /// facts needed to read and write it there.
    fn cell_index(&self, y: usize, x: usize) -> (i: usize)
        requires
            self.wf(),
            self.in_bounds(y as int, x as int),
        ensures
            i == y * self.spec_width() + x,
            i < self.grid@.len(),
    {
        proof {
            lemma_row_major_bounds(self.spec_height(), self.spec_width(), y as int, x as int);
            assert(self.grid.len() == self.grid@.len());
        }
        y * self.width + x
    }

    /// Allocates a `height`-by-`width` grid with every cell unexposed.
    pub fn new(width: usize, height: usize) -> (maze: GrowingTreeMaze)
        requires
            1 <= width,
            1 <= height,
            height * width <= usize::MAX,
        ensures
            maze.wf(),
            maze.spec_width() == width,
            maze.spec_height() == height,
            forall|y: int, x: int|
                maze.in_bounds(y, x) ==> maze.cell(y, x) == CellType::UnexposedUndertermined,
    {
        if width == 0 || height == 0 {
            // zero dimensions are a caller contract violation: fail before any
            // grid exists rather than hand out a degenerate one
            return vstd::pervasive::unreached();
        }
        let total: usize = height * width;
        let mut grid: Vec<CellType> = Vec::new();
        let mut i: usize = 0;
        while i < total
            invariant
                i <= total,
                grid@.len() == i,
                forall|k: int| 0 <= k < i ==> grid@[k] == CellType::UnexposedUndertermined,
            decreases total - i,
        {
            grid.push(CellType::UnexposedUndertermined);
            i = i + 1;
        }
        let maze = GrowingTreeMaze { width, height, grid };
        proof {
            assert forall|y: int, x: int| maze.in_bounds(y, x) implies maze.cell(y, x)
                == CellType::UnexposedUndertermined by {
                lemma_row_major_bounds(maze.spec_height(), maze.spec_width(), y, x);
            }
        }
        maze
    }

    /// Writes one cell, leaving every other cell and the dimensions unchanged.
    fn set_cell(&mut self, y: usize, x: usize, v: CellType)
        requires
            old(self).wf(),
            old(self).in_bounds(y as int, x as int),
        ensures
            final(self).wf(),
            final(self).spec_width() == old(self).spec_width(),
            final(self).spec_height() == old(self).spec_height(),
            final(self).cell(y as int, x as int) == v,
            forall|i: int, j: int|
                old(self).in_bounds(i, j) && !(i == y as int && j == x as int) ==> final(self).cell(
                    i,
                    j,
                ) == old(self).cell(i, j),
            final(self).und() == old(self).und() + (if is_undetermined(v) {
                1int
            } else {
                0int
            }) - (if is_undetermined(old(self).cell(y as int, x as int)) {
                1int
            } else {
                0int
            }),
    {
        let i = self.cell_index(y, x);
        proof {
            lemma_und_count_update(self.grid@, i as int, v);
        }
        self.grid[i] = v;
        proof {
            let w = self.spec_width();
            assert forall|a: int, b: int|
                old(self).in_bounds(a, b) && !(a == y as int && b == x as int) implies self.cell(
                a,
                b,
            ) == old(self).cell(a, b) by {
                lemma_row_major_bounds(self.spec_height(), w, a, b);
                if a * w + b == i as int {
                    lemma_row_major_injective(w, a, b, y as int, x as int);
                }
            }
        }
    }

    /// Make the cell at `(y, x)` a wall. No side effects beyond the single cell
    /// write.
    fn harden(&mut self, y: usize, x: usize)
        requires
            old(self).wf(),
            old(self).in_bounds(y as int, x as int),
        ensures
            final(self).wf(),
            final(self).spec_width() == old(self).spec_width(),
            final(self).spec_height() == old(self).spec_height(),
            final(self).cell(y as int, x as int) == CellType::Wall,
            forall|i: int, j: int|
                old(self).in_bounds(i, j) && !(i == y as int && j == x as int) ==> final(self).cell(
                    i,
                    j,
                ) == old(self).cell(i, j),
            final(self).und() == old(self).und() - (if is_undetermined(
                old(self).cell(y as int, x as int),
            ) {
                1int
            } else {
                0int
            }),
    {
        self.set_cell(y, x, CellType::Wall);
    }

    /// True when `(y, x)` is an open cell; callers may probe one step past the
    /// edge of the grid through the bound guards of `check`.
    fn open_cell(&self, y: usize, x: usize) -> (r: bool)
        requires
            self.wf(),
            self.in_bounds(y as int, x as int),
        ensures
            r == self.open_at(y as int, x as int),
    {
        let i = self.cell_index(y, x);
        self.grid[i] == CellType::Empty
    }

    /// Test the cell at `(y, x)`: can this cell become a space?
    /// True indicates it should become a space, false that it should become a
    /// wall. The cell qualifies only with exactly one open orthogonal
    /// neighbor; with `nodiagonals` the passage may also not touch an existing
    /// passage only at a corner.
    fn check(&self, y: usize, x: usize, nodiagonals: bool) -> (r: bool)
        requires
            self.wf(),
            self.in_bounds(y as int, x as int),
        ensures
            r == self.spec_check(y as int, x as int, nodiagonals),
    {
        let mut edgestate: u32 = 0;

        if x > 0 && self.open_cell(y, x - 1) {
            edgestate += 1;
        }

        if x < self.width - 1 && self.open_cell(y, x + 1) {
            edgestate += 2;
        }

        if y > 0 && self.open_cell(y - 1, x) {
            edgestate += 4;
        }

        if y < self.height - 1 && self.open_cell(y + 1, x) {
            edgestate += 8;
        }

        if nodiagonals {
            // if this would make a diagonal connection, forbid it
            match edgestate {
                1u32 => {
                    if x < self.width - 1 {
                        if y > 0 && self.open_cell(y - 1, x + 1) {
                            return false;
                        }
                        if y < self.height - 1 && self.open_cell(y + 1, x + 1) {
                            return false;
                        }
                    }
                    true
                },
                2u32 => {
                    if x > 0 {
                        if y > 0 && self.open_cell(y - 1, x - 1) {
                            return false;
                        }
                        if y < self.height - 1 && self.open_cell(y + 1, x - 1) {
                            return false;
                        }
                    }
                    true
                },
                4u32 => {
                    if y < self.height - 1 {
                        if x > 0 && self.open_cell(y + 1, x - 1) {
                            return false;
                        }
                        if x < self.width - 1 && self.open_cell(y + 1, x + 1) {
                            return false;
                        }
                    }
                    true
                },
                8u32 => {
                    if y > 0 {
                        if x > 0 && self.open_cell(y - 1, x - 1) {
                            return false;
                        }
                        if x < self.width - 1 && self.open_cell(y - 1, x + 1) {
                            return false;
                        }
                    }
                    true
                },
                _ => false,
            }
        } else {
            edgestate == 1 || edgestate == 2 || edgestate == 4 || edgestate == 8
        }
    }

    /// What carving the cell `(y, x)` leaves in the cell `(i, j)`: the carved
    /// cell itself becomes open, its unexposed orthogonal neighbors become
    /// exposed, and every other cell keeps its state.
    pub open spec fn carved_cell(m: Self, y: int, x: int, i: int, j: int) -> CellType {
        if i == y && j == x {
            CellType::Empty
        } else if orth_adjacent(y, x, i, j) && m.cell(i, j) == CellType::UnexposedUndertermined {
            CellType::ExposedUndertermined
        } else {
            m.cell(i, j)
        }
    }

    /// `m2` is exactly `m1` with the cell `(y, x)` carved.
    pub open spec fn is_carved(m1: Self, m2: Self, y: int, x: int) -> bool {
        &&& m2.wf()
        &&& m2.spec_width() == m1.spec_width()
        &&& m2.spec_height() == m1.spec_height()
        &&& forall|i: int, j: int|
            m1.in_bounds(i, j) ==> #[trigger] m2.cell(i, j) == Self::carved_cell(m1, y, x, i, j)
    }

    /// The coordinate pair `c` is an orthogonal neighbor of `(y, x)` that
    /// carving `(y, x)` in `m` newly exposes.
    pub open spec fn newly_exposed(m: Self, y: int, x: int, c: (usize, usize)) -> bool {
        &&& m.in_bounds(c.0 as int, c.1 as int)
        &&& orth_adjacent(y, x, c.0 as int, c.1 as int)
        &&& m.cell(c.0 as int, c.1 as int) == CellType::UnexposedUndertermined
    }

    /// Open the cell `(y, x)` and mark its unexposed orthogonal neighbors as
    /// exposed, collecting those neighbors in the order west, east, north,
    /// south.
    #[verifier::rlimit(100)]
    fn carve_cells(&mut self, y: usize, x: usize) -> (extra: Vec<(usize, usize)>)
        requires
            old(self).wf(),
            old(self).in_bounds(y as int, x as int),
            is_undetermined(old(self).cell(y as int, x as int)),
        ensures
            Self::is_carved(*old(self), *final(self), y as int, x as int),
            final(self).und() + 1 == old(self).und(),
            extra@.no_duplicates(),
            forall|k: int|
                0 <= k < extra@.len() ==> Self::newly_exposed(
                    *old(self),
                    y as int,
                    x as int,
                    #[trigger] extra@[k],
                ),
            forall|i: int, j: int|
                old(self).in_bounds(i, j) && orth_adjacent(y as int, x as int, i, j) && old(
                    self,
                ).cell(i, j) == CellType::UnexposedUndertermined ==> extra@.contains(
                    (i as usize, j as usize),
                ),
    {
        let ghost m0 = *self;
        let mut extra: Vec<(usize, usize)> = Vec::new();
        self.set_cell(y, x, CellType::Empty);

        if x > 0 && *self.get_cell(x - 1, y) == CellType::UnexposedUndertermined {
            self.set_cell(y, x - 1, CellType::ExposedUndertermined);
            extra.push((y, x - 1));
        }

        if x < self.width - 1 && *self.get_cell(x + 1, y) == CellType::UnexposedUndertermined {
            self.set_cell(y, x + 1, CellType::ExposedUndertermined);
            extra.push((y, x + 1));
        }

        if y > 0 && *self.get_cell(x, y - 1) == CellType::UnexposedUndertermined {
            self.set_cell(y - 1, x, CellType::ExposedUndertermined);
            extra.push((y - 1, x));
        }

        if y < self.height - 1 && *self.get_cell(x, y + 1) == CellType::UnexposedUndertermined {
            self.set_cell(y + 1, x, CellType::ExposedUndertermined);
            extra.push((y + 1, x));
        }

        proof {
            assert forall|i: int, j: int| m0.in_bounds(i, j) implies #[trigger] self.cell(i, j)
                == Self::carved_cell(m0, y as int, x as int, i, j) by {}
            broadcast use vstd::seq_lib::lemma_seq_contains_after_push;

            assert forall|i: int, j: int|
                m0.in_bounds(i, j) && orth_adjacent(y as int, x as int, i, j) && m0.cell(i, j)
                    == CellType::UnexposedUndertermined implies extra@.contains(
                (i as usize, j as usize),
            ) by {}
        }
        extra
    }

    /// Make the cell at `(y, x)` a space.
    /// Update the frontier and grid accordingly: every unexposed orthogonal
    /// neighbor becomes exposed, and those neighbors are appended to the end
    /// of `frontier` in a uniformly shuffled order, so that no direction is
    /// favored when several neighbors are exposed at once.
    /// Note: this does not remove the carved cell from `frontier`, it only
    /// adds new cells.
    #[verifier::rlimit(100)]
    fn carve(&mut self, frontier: &mut Vec<(usize, usize)>, y: usize, x: usize, rng: &mut StdRng)
        requires
            old(self).wf(),
            old(self).in_bounds(y as int, x as int),
            is_undetermined(old(self).cell(y as int, x as int)),
        ensures
            Self::is_carved(*old(self), *final(self), y as int, x as int),
            final(self).und() + 1 == old(self).und(),
            final(frontier)@.len() >= old(frontier)@.len(),
            final(frontier)@.subrange(0, old(frontier)@.len() as int) == old(frontier)@,
            forall|k: int|
                old(frontier)@.len() <= k < final(frontier)@.len() ==> Self::newly_exposed(
                    *old(self),
                    y as int,
                    x as int,
                    #[trigger] final(frontier)@[k],
                ),
            forall|i: int, j: int|
                old(self).in_bounds(i, j) && orth_adjacent(y as int, x as int, i, j) && old(
                    self,
                ).cell(i, j) == CellType::UnexposedUndertermined ==> exists|k: int|
                    old(frontier)@.len() <= k < final(frontier)@.len() && final(frontier)@[k] == (
                    i as usize,
                    j as usize,
                    ),
            forall|k1: int, k2: int|
                old(frontier)@.len() <= k1 < k2 < final(frontier)@.len() ==> final(frontier)@[k1]
                    != final(frontier)@[k2],
    {
        let ghost m0 = *self;
        let ghost f0 = frontier@;
        let mut extra = self.carve_cells(y, x);
        let ghost pre = extra@;
        shuffle_cells(&mut extra, rng);
        let ghost post = extra@;
        proof {
            lemma_permutation_facts(pre, post);
        }
        frontier.append(&mut extra);
        proof {
            assert(frontier@.subrange(0, f0.len() as int) =~= f0);
            assert forall|k: int| f0.len() <= k < frontier@.len() implies Self::newly_exposed(
                m0,
                y as int,
                x as int,
                #[trigger] frontier@[k],
            ) by {
                assert(frontier@[k] == post[k - f0.len()]);
                assert(pre.contains(post[k - f0.len()]));
            }
            assert forall|i: int, j: int|
                m0.in_bounds(i, j) && orth_adjacent(y as int, x as int, i, j) && m0.cell(i, j)
                    == CellType::UnexposedUndertermined implies exists|k: int|
                f0.len() <= k < frontier@.len() && frontier@[k] == (i as usize, j as usize) by {
                let c = (i as usize, j as usize);
                assert(pre.contains(c));
                assert(post.contains(c));
                let k0 = choose|k0: int| 0 <= k0 < post.len() && post[k0] == c;
                assert(frontier@[f0.len() + k0] == c);
            }
        }
    }

    /// An open cell reaches itself by the one-step walk.
    proof fn lemma_reachable_self(self, y: int, x: int)
        requires
            self.open_at(y, x),
        ensures
            self.reachable(y, x, y, x),
    {
        let p: Seq<(int, int)> = seq![(y, x)];
        assert(self.is_path(p, y, x, y, x));
    }

    /// A walk extends by one step to an adjacent open cell.
    proof fn lemma_reachable_step(self, sy: int, sx: int, ny: int, nx: int, cy: int, cx: int)
        requires
            self.reachable(sy, sx, ny, nx),
            orth_adjacent(ny, nx, cy, cx),
            self.open_at(cy, cx),
        ensures
            self.reachable(sy, sx, cy, cx),
    {
        let p = choose|p: Seq<(int, int)>| self.is_path(p, sy, sx, ny, nx);
        let q = p.push((cy, cx));
        assert forall|k: int| 0 <= k < q.len() implies self.open_at(
            (#[trigger] q[k]).0,
            q[k].1,
        ) by {
            if k < p.len() {
                assert(q[k] == p[k]);
            }
        }
        assert forall|k: int| 0 <= k < q.len() - 1 implies orth_adjacent(
            (#[trigger] q[k]).0,
            q[k].1,
            q[k + 1].0,
            q[k + 1].1,
        ) by {
            if k < p.len() - 1 {
                assert(q[k] == p[k] && q[k + 1] == p[k + 1]);
            } else {
                assert(q[k] == p[p.len() - 1] && q[k + 1] == (cy, cx));
            }
        }
        assert(self.is_path(q, sy, sx, cy, cx));
    }

    /// Walks survive growth of the open set.
    proof fn lemma_reachable_monotone(m1: Self, m2: Self, sy: int, sx: int, by: int, bx: int)
        requires
            Self::preserves_open(m1, m2),
            m1.reachable(sy, sx, by, bx),
        ensures
            m2.reachable(sy, sx, by, bx),
    {
        let p = choose|p: Seq<(int, int)>| m1.is_path(p, sy, sx, by, bx);
        assert forall|k: int| 0 <= k < p.len() implies m2.open_at(
            (#[trigger] p[k]).0,
            p[k].1,
        ) by {
            assert(m1.open_at(p[k].0, p[k].1));
        }
        assert(m2.is_path(p, sy, sx, by, bx));
    }

    /// Connectivity carries over to a grid with exactly the same open cells.
    proof fn lemma_connected_same_open(m1: Self, m2: Self, sy: int, sx: int)
        requires
            m2.spec_width() == m1.spec_width(),
            m2.spec_height() == m1.spec_height(),
            forall|i: int, j: int| m1.open_at(i, j) <==> #[trigger] m2.open_at(i, j),
            m1.connected_from(sy, sx),
        ensures
            m2.connected_from(sy, sx),
    {
        assert forall|i: int, j: int| #[trigger] m2.open_at(i, j) implies m2.reachable(
            sy,
            sx,
            i,
            j,
        ) by {
            assert(m1.open_at(i, j));
            Self::lemma_reachable_monotone(m1, m2, sy, sx, i, j);
        }
    }

    /// Carving grows the open set by exactly the carved cell.
    proof fn lemma_carve_open_sets(m1: Self, m2: Self, y: int, x: int)
        requires
            m1.wf(),
            m1.in_bounds(y, x),
            Self::is_carved(m1, m2, y, x),
        ensures
            Self::preserves_open(m1, m2),
            m2.open_at(y, x),
            forall|i: int, j: int|
                #[trigger] m2.open_at(i, j) <==> m1.open_at(i, j) || (i == y && j == x),
    {
        assert forall|i: int, j: int|
            #[trigger] m2.open_at(i, j) <==> m1.open_at(i, j) || (i == y && j == x) by {
            if m1.in_bounds(i, j) {
                assert(m2.cell(i, j) == Self::carved_cell(m1, y, x, i, j));
            }
        }
    }

    /// Carving keeps the open cells one component: the carved cell joins it
    /// through its one open neighbor, or is the start of the component.
    proof fn lemma_carve_connected(m1: Self, m2: Self, sy: int, sx: int, y: int, x: int)
        requires
            m1.wf(),
            m1.in_bounds(y, x),
            Self::is_carved(m1, m2, y, x),
            m1.connected_from(sy, sx),
            (y == sy && x == sx) || m1.open_neighbor_count(y, x) >= 1,
        ensures
            m2.connected_from(sy, sx),
    {
        Self::lemma_carve_open_sets(m1, m2, y, x);
        assert forall|i: int, j: int| #[trigger] m2.open_at(i, j) implies m2.reachable(
            sy,
            sx,
            i,
            j,
        ) by {
            if m1.open_at(i, j) {
                Self::lemma_reachable_monotone(m1, m2, sy, sx, i, j);
            } else {
                assert(i == y && j == x);
                if y == sy && x == sx {
                    m2.lemma_reachable_self(y, x);
                } else {
                    if m1.open_at(y, x - 1) {
                        Self::lemma_reachable_monotone(m1, m2, sy, sx, y, x - 1);
                        m2.lemma_reachable_step(sy, sx, y, x - 1, y, x);
                    } else if m1.open_at(y, x + 1) {
                        Self::lemma_reachable_monotone(m1, m2, sy, sx, y, x + 1);
                        m2.lemma_reachable_step(sy, sx, y, x + 1, y, x);
                    } else if m1.open_at(y - 1, x) {
                        Self::lemma_reachable_monotone(m1, m2, sy, sx, y - 1, x);
                        m2.lemma_reachable_step(sy, sx, y - 1, x, y, x);
                    } else {
                        assert(m1.open_at(y + 1, x));
                        Self::lemma_reachable_monotone(m1, m2, sy, sx, y + 1, x);
                        m2.lemma_reachable_step(sy, sx, y + 1, x, y, x);
                    }
                }
            }
        }
    }

    /// Carving a cell that passed the admissibility test, or the very first
    /// cell of an untouched grid, never creates a diagonal-only join.
    proof fn lemma_carve_no_diag(m1: Self, m2: Self, y: int, x: int)
        requires
            m1.wf(),
            m1.in_bounds(y, x),
            Self::is_carved(m1, m2, y, x),
            m1.no_diagonal_joins(),
            m1.spec_check(y, x, true) || m1.all_unexposed(),
        ensures
            m2.no_diagonal_joins(),
    {
        Self::lemma_carve_open_sets(m1, m2, y, x);
        assert forall|a: int, b: int, c: int, d: int|
            m2.open_at(a, b) && m2.open_at(c, d) && diag_adjacent(a, b, c, d) implies m2.open_at(
            a,
            d,
        ) || m2.open_at(c, b) by {
            if m1.open_at(a, b) && m1.open_at(c, d) {
                assert(m1.open_at(a, d) || m1.open_at(c, b));
            } else if m1.all_unexposed() {
                assert(forall|i: int, j: int| !m1.open_at(i, j));
                assert(false);
            } else if a == y && b == x {
                assert(m1.open_at(c, d));
                assert(m1.open_neighbor_count(y, x) == 1);
            } else {
                assert(c == y && d == x);
                assert(m1.open_at(a, b));
                assert(m1.open_neighbor_count(y, x) == 1);
            }
        }
    }

    /// Carving a cell that passed the admissibility test, or the very first
    /// cell of an untouched grid, never completes a two-by-two open block:
    /// the carved cell would have had two open neighbors in the block.
    proof fn lemma_carve_no_blocks(m1: Self, m2: Self, y: int, x: int)
        requires
            m1.wf(),
            m1.in_bounds(y, x),
            Self::is_carved(m1, m2, y, x),
            m1.no_open_blocks(),
            m1.spec_check(y, x, true) || m1.all_unexposed(),
        ensures
            m2.no_open_blocks(),
    {
        Self::lemma_carve_open_sets(m1, m2, y, x);
        assert forall|a: int, b: int|
            !(#[trigger] m2.open_at(a, b) && m2.open_at(a, b + 1) && m2.open_at(a + 1, b)
                && m2.open_at(a + 1, b + 1)) by {
            if m2.open_at(a, b) && m2.open_at(a, b + 1) && m2.open_at(a + 1, b) && m2.open_at(
                a + 1,
                b + 1,
            ) {
                if m1.all_unexposed() {
                    assert(forall|i: int, j: int| !m1.open_at(i, j));
                    assert(false);
                } else {
                    assert(m1.open_neighbor_count(y, x) == 1);
                    if a == y && b == x {
                        assert(m1.open_at(y, x + 1) && m1.open_at(y + 1, x));
                    } else if a == y && b + 1 == x {
                        assert(m1.open_at(y, x - 1) && m1.open_at(y + 1, x));
                    } else if a + 1 == y && b == x {
                        assert(m1.open_at(y - 1, x) && m1.open_at(y, x + 1));
                    } else if a + 1 == y && b + 1 == x {
                        assert(m1.open_at(y - 1, x) && m1.open_at(y, x - 1));
                    } else {
                        assert(m1.open_at(a, b) && m1.open_at(a, b + 1) && m1.open_at(a + 1, b)
                            && m1.open_at(a + 1, b + 1));
                    }
                    assert(false);
                }
            }
        }
    }

    /// Carving keeps the exposure bookkeeping: newly exposed cells border the
    /// new space, and cells left unexposed border no open cell.
    proof fn lemma_carve_exposure(m1: Self, m2: Self, y: int, x: int)
        requires
            m1.wf(),
            m1.in_bounds(y, x),
            Self::is_carved(m1, m2, y, x),
            m1.exposure_ok(),
        ensures
            m2.exposure_ok(),
    {
        Self::lemma_carve_open_sets(m1, m2, y, x);
        assert forall|a: int, b: int| m2.in_bounds(a, b) implies {
            &&& (m2.cell(a, b) == CellType::UnexposedUndertermined ==> m2.open_neighbor_count(a, b)
                == 0)
            &&& (m2.cell(a, b) == CellType::ExposedUndertermined ==> m2.open_neighbor_count(a, b)
                >= 1)
        } by {
            assert(m2.cell(a, b) == Self::carved_cell(m1, y, x, a, b));
        }
    }

    /// Carving keeps every wall permanently inadmissible: the open set only
    /// grows, so a wall that bordered two open cells still does, and a
    /// conflicting open diagonal stays open.
    proof fn lemma_carve_walls(m1: Self, m2: Self, y: int, x: int)
        requires
            m1.wf(),
            m1.in_bounds(y, x),
            Self::is_carved(m1, m2, y, x),
            m1.walls_blocked(),
        ensures
            m2.walls_blocked(),
    {
        Self::lemma_carve_open_sets(m1, m2, y, x);
        assert forall|a: int, b: int|
            m2.in_bounds(a, b) && m2.cell(a, b) == CellType::Wall implies m2.wall_blocked_at(
            a,
            b,
        ) by {
            assert(m2.cell(a, b) == Self::carved_cell(m1, y, x, a, b));
            assert(m1.cell(a, b) == CellType::Wall);
            assert(m1.wall_blocked_at(a, b));
        }
    }

    /// No cell of the grid is exposed.
    pub open spec fn no_exposed(self) -> bool {
        forall|a: int, b: int|
            self.in_bounds(a, b) ==> #[trigger] self.cell(a, b) != CellType::ExposedUndertermined
    }

    /// On an untouched grid every structural invariant holds vacuously: there
    /// are no open cells, no exposed cells and no walls yet.
    proof fn lemma_initial_invariants(self, sy: int, sx: int)
        requires
            self.wf(),
            self.all_unexposed(),
        ensures
            self.connected_from(sy, sx),
            self.no_diagonal_joins(),
            self.exposure_ok(),
            self.walls_blocked(),
            self.no_open_blocks(),
    {
        assert(forall|i: int, j: int| self.in_bounds(i, j) ==> !self.open_at(i, j));
        assert forall|y: int, x: int| self.in_bounds(y, x) implies self.open_neighbor_count(y, x)
            == 0 by {}
    }

    /// After the very first carve the frontier lists exactly the cells that
    /// the carve exposed.
    proof fn lemma_frontier_after_start_carve(
        m0: Self,
        m1: Self,
        f: Seq<(usize, usize)>,
        cy: int,
        cx: int,
    )
        requires
            m0.wf(),
            m0.in_bounds(cy, cx),
            m0.all_unexposed(),
            Self::is_carved(m0, m1, cy, cx),
            forall|k: int| 0 <= k < f.len() ==> Self::newly_exposed(m0, cy, cx, #[trigger] f[k]),
            forall|i: int, j: int|
                m0.in_bounds(i, j) && orth_adjacent(cy, cx, i, j) && m0.cell(i, j)
                    == CellType::UnexposedUndertermined ==> exists|k: int|
                    0 <= k < f.len() && f[k] == (i as usize, j as usize),
            forall|k1: int, k2: int| 0 <= k1 < k2 < f.len() ==> f[k1] != f[k2],
        ensures
            m1.frontier_entries_exposed(f),
            m1.frontier_covers_exposed(f),
            f.no_duplicates(),
    {
        assert forall|k: int| 0 <= k < f.len() implies {
            &&& m1.in_bounds((#[trigger] f[k]).0 as int, f[k].1 as int)
            &&& m1.cell(f[k].0 as int, f[k].1 as int) == CellType::ExposedUndertermined
        } by {
            let a = f[k].0 as int;
            let b = f[k].1 as int;
            assert(Self::newly_exposed(m0, cy, cx, f[k]));
            assert(m1.cell(a, b) == Self::carved_cell(m0, cy, cx, a, b));
        }
        assert forall|a: int, b: int|
            m1.in_bounds(a, b) && m1.cell(a, b) == CellType::ExposedUndertermined implies exists|
            k: int,
        |
            0 <= k < f.len() && f[k] == (a as usize, b as usize) by {
            assert(m1.cell(a, b) == Self::carved_cell(m0, cy, cx, a, b));
            assert(orth_adjacent(cy, cx, a, b) && m0.cell(a, b)
                == CellType::UnexposedUndertermined);
        }
        assert forall|k1: int, k2: int|
            0 <= k1 < f.len() && 0 <= k2 < f.len() && k1 != k2 implies f[k1] != f[k2] by {}
    }

    /// Grids with the same open cells agree on two-by-two open blocks.
    proof fn lemma_same_open_same_blocks(m1: Self, m2: Self)
        requires
            forall|i: int, j: int| m1.open_at(i, j) <==> #[trigger] m2.open_at(i, j),
            m1.no_open_blocks(),
        ensures
            m2.no_open_blocks(),
    {
        assert forall|a: int, b: int|
            !(#[trigger] m2.open_at(a, b) && m2.open_at(a, b + 1) && m2.open_at(a + 1, b)
                && m2.open_at(a + 1, b + 1)) by {
            assert(m2.open_at(a, b) == m1.open_at(a, b));
            assert(m2.open_at(a, b + 1) == m1.open_at(a, b + 1));
            assert(m2.open_at(a + 1, b) == m1.open_at(a + 1, b));
            assert(m2.open_at(a + 1, b + 1) == m1.open_at(a + 1, b + 1));
        }
    }

    /// Grids with the same open cells agree on neighbor counts and on the
    /// diagonal test at every cell.
    proof fn lemma_same_open_same_count(m1: Self, m2: Self, a: int, b: int)
        requires
            forall|i: int, j: int| m1.open_at(i, j) <==> #[trigger] m2.open_at(i, j),
        ensures
            m2.open_neighbor_count(a, b) == m1.open_neighbor_count(a, b),
            m2.diag_clear(a, b) == m1.diag_clear(a, b),
    {
        assert(m2.open_at(a, b - 1) == m1.open_at(a, b - 1));
        assert(m2.open_at(a, b + 1) == m1.open_at(a, b + 1));
        assert(m2.open_at(a - 1, b) == m1.open_at(a - 1, b));
        assert(m2.open_at(a + 1, b) == m1.open_at(a + 1, b));
        assert(m2.open_at(a - 1, b - 1) == m1.open_at(a - 1, b - 1));
        assert(m2.open_at(a - 1, b + 1) == m1.open_at(a - 1, b + 1));
        assert(m2.open_at(a + 1, b - 1) == m1.open_at(a + 1, b - 1));
        assert(m2.open_at(a + 1, b + 1) == m1.open_at(a + 1, b + 1));
    }

    /// Hardening the picked exposed cell keeps every structural invariant:
    /// the open set is untouched, and the new wall is permanently
    /// inadmissible because the test that failed it only gets harder to pass.
    proof fn lemma_harden_preserves(m1: Self, m2: Self, cy: int, cx: int, sy: int, sx: int)
        requires
            m1.wf(),
            m1.in_bounds(cy, cx),
            m1.cell(cy, cx) == CellType::ExposedUndertermined,
            !m1.spec_check(cy, cx, true),
            m2.wf(),
            m2.spec_width() == m1.spec_width(),
            m2.spec_height() == m1.spec_height(),
            m2.cell(cy, cx) == CellType::Wall,
            forall|i: int, j: int|
                m1.in_bounds(i, j) && !(i == cy && j == cx) ==> #[trigger] m2.cell(i, j)
                    == m1.cell(i, j),
            m1.open_at(sy, sx),
            m1.connected_from(sy, sx),
            m1.no_diagonal_joins(),
            m1.exposure_ok(),
            m1.walls_blocked(),
            m1.no_open_blocks(),
        ensures
            m2.open_at(sy, sx),
            m2.connected_from(sy, sx),
            m2.no_diagonal_joins(),
            m2.exposure_ok(),
            m2.walls_blocked(),
            m2.no_open_blocks(),
    {
        assert forall|i: int, j: int| m1.open_at(i, j) <==> #[trigger] m2.open_at(i, j) by {
            if m1.in_bounds(i, j) && !(i == cy && j == cx) {
                assert(m2.cell(i, j) == m1.cell(i, j));
            }
        }
        Self::lemma_connected_same_open(m1, m2, sy, sx);
        Self::lemma_same_open_same_blocks(m1, m2);
        assert forall|a: int, b: int, c: int, d: int|
            m2.open_at(a, b) && m2.open_at(c, d) && diag_adjacent(a, b, c, d) implies m2.open_at(
            a,
            d,
        ) || m2.open_at(c, b) by {
            assert(m1.open_at(a, b) && m1.open_at(c, d));
        }
        assert forall|a: int, b: int| m2.in_bounds(a, b) implies {
            &&& (m2.cell(a, b) == CellType::UnexposedUndertermined ==> m2.open_neighbor_count(a, b)
                == 0)
            &&& (m2.cell(a, b) == CellType::ExposedUndertermined ==> m2.open_neighbor_count(a, b)
                >= 1)
        } by {
            Self::lemma_same_open_same_count(m1, m2, a, b);
            if !(a == cy && b == cx) {
                assert(m2.cell(a, b) == m1.cell(a, b));
            }
        }
        assert forall|a: int, b: int|
            m2.in_bounds(a, b) && m2.cell(a, b) == CellType::Wall implies m2.wall_blocked_at(
            a,
            b,
        ) by {
            Self::lemma_same_open_same_count(m1, m2, a, b);
            if a == cy && b == cx {
                assert(m1.open_neighbor_count(cy, cx) >= 1);
            } else {
                assert(m1.cell(a, b) == CellType::Wall);
            }
        }
    }

    /// Hardening a still-unexposed cell after the frontier has drained keeps
    /// every invariant of the finished maze: such a cell borders no open
    /// cell, so the wall it becomes fails the admissibility test.
    proof fn lemma_sweep_harden(m1: Self, m2: Self, cy: int, cx: int, sy: int, sx: int)
        requires
            m1.wf(),
            m1.in_bounds(cy, cx),
            m1.cell(cy, cx) == CellType::UnexposedUndertermined,
            m2.wf(),
            m2.spec_width() == m1.spec_width(),
            m2.spec_height() == m1.spec_height(),
            m2.cell(cy, cx) == CellType::Wall,
            forall|i: int, j: int|
                m1.in_bounds(i, j) && !(i == cy && j == cx) ==> #[trigger] m2.cell(i, j)
                    == m1.cell(i, j),
            m1.open_at(sy, sx),
            m1.connected_from(sy, sx),
            m1.no_diagonal_joins(),
            m1.exposure_ok(),
            m1.walls_unadmissible(),
            m1.no_open_blocks(),
        ensures
            m2.open_at(sy, sx),
            m2.connected_from(sy, sx),
            m2.no_diagonal_joins(),
            m2.exposure_ok(),
            m2.walls_unadmissible(),
            m2.no_open_blocks(),
    {
        assert forall|i: int, j: int| m1.open_at(i, j) <==> #[trigger] m2.open_at(i, j) by {
            if m1.in_bounds(i, j) && !(i == cy && j == cx) {
                assert(m2.cell(i, j) == m1.cell(i, j));
            }
        }
        Self::lemma_connected_same_open(m1, m2, sy, sx);
        Self::lemma_same_open_same_blocks(m1, m2);
        assert forall|a: int, b: int, c: int, d: int|
            m2.open_at(a, b) && m2.open_at(c, d) && diag_adjacent(a, b, c, d) implies m2.open_at(
            a,
            d,
        ) || m2.open_at(c, b) by {
            assert(m1.open_at(a, b) && m1.open_at(c, d));
        }
        assert forall|a: int, b: int| m2.in_bounds(a, b) implies {
            &&& (m2.cell(a, b) == CellType::UnexposedUndertermined ==> m2.open_neighbor_count(a, b)
                == 0)
            &&& (m2.cell(a, b) == CellType::ExposedUndertermined ==> m2.open_neighbor_count(a, b)
                >= 1)
        } by {
            Self::lemma_same_open_same_count(m1, m2, a, b);
            if !(a == cy && b == cx) {
                assert(m2.cell(a, b) == m1.cell(a, b));
            }
        }
        assert forall|a: int, b: int|
            m2.in_bounds(a, b) && m2.cell(a, b) == CellType::Wall implies !m2.spec_check(
            a,
            b,
            true,
        ) by {
            Self::lemma_same_open_same_count(m1, m2, a, b);
            if a == cy && b == cx {
                assert(m1.open_neighbor_count(cy, cx) == 0);
            } else {
                assert(m1.cell(a, b) == CellType::Wall);
                assert(!m1.spec_check(a, b, true));
            }
        }
    }

    /// A wall that borders two open cells, or whose opening would make a
    /// diagonal-only join, fails the admissibility test outright.
    proof fn lemma_blocked_unadmissible(self)
        requires
            self.walls_blocked(),
        ensures
            self.walls_unadmissible(),
    {
        assert forall|y: int, x: int|
            self.in_bounds(y, x) && self.cell(y, x) == CellType::Wall implies !self.spec_check(
            y,
            x,
            true,
        ) by {
            assert(self.wall_blocked_at(y, x));
        }
    }

    /// Resolving the picked frontier entry by carving keeps the frontier in
    /// step with the grid: after the newly exposed cells are appended and the
    /// picked entry is removed, the frontier again lists exactly the exposed
    /// cells, each once.
    #[verifier::rlimit(100)]
    proof fn lemma_frontier_after_carve(
        m1: Self,
        m2: Self,
        f1: Seq<(usize, usize)>,
        f2: Seq<(usize, usize)>,
        cy: int,
        cx: int,
        idx: int,
    )
        requires
            m1.wf(),
            m1.in_bounds(cy, cx),
            Self::is_carved(m1, m2, cy, cx),
            m1.frontier_entries_exposed(f1),
            m1.frontier_covers_exposed(f1),
            f1.no_duplicates(),
            0 <= idx < f1.len(),
            f1[idx] == (cy as usize, cx as usize),
            f2.len() >= f1.len(),
            f2.subrange(0, f1.len() as int) == f1,
            forall|k: int|
                f1.len() <= k < f2.len() ==> Self::newly_exposed(m1, cy, cx, #[trigger] f2[k]),
            forall|i: int, j: int|
                m1.in_bounds(i, j) && orth_adjacent(cy, cx, i, j) && m1.cell(i, j)
                    == CellType::UnexposedUndertermined ==> exists|k: int|
                    f1.len() <= k < f2.len() && f2[k] == (i as usize, j as usize),
            forall|k1: int, k2: int| f1.len() <= k1 < k2 < f2.len() ==> f2[k1] != f2[k2],
        ensures
            m2.frontier_entries_exposed(f2.remove(idx)),
            m2.frontier_covers_exposed(f2.remove(idx)),
            f2.remove(idx).no_duplicates(),
    {
        let f3 = f2.remove(idx);
        f2.remove_ensures(idx);
        assert(forall|k: int| 0 <= k < f1.len() ==> f2[k] == f1[k]);

        // the whole appended frontier is duplicate-free
        assert forall|k1: int, k2: int|
            0 <= k1 < f2.len() && 0 <= k2 < f2.len() && k1 != k2 implies f2[k1] != f2[k2] by {
            if k1 < f1.len() && k2 < f1.len() {
                assert(f1[k1] != f1[k2]);
            } else if k1 < f1.len() && k2 >= f1.len() {
                assert(m1.cell(f1[k1].0 as int, f1[k1].1 as int)
                    == CellType::ExposedUndertermined);
                assert(Self::newly_exposed(m1, cy, cx, f2[k2]));
            } else if k1 >= f1.len() && k2 < f1.len() {
                assert(m1.cell(f1[k2].0 as int, f1[k2].1 as int)
                    == CellType::ExposedUndertermined);
                assert(Self::newly_exposed(m1, cy, cx, f2[k1]));
            }
        }
        lemma_remove_no_duplicates(f2, idx);

        // every remaining entry is exposed in the carved grid
        assert forall|k: int| 0 <= k < f3.len() implies {
            &&& m2.in_bounds((#[trigger] f3[k]).0 as int, f3[k].1 as int)
            &&& m2.cell(f3[k].0 as int, f3[k].1 as int) == CellType::ExposedUndertermined
        } by {
            let j: int = if k < idx {
                k
            } else {
                k + 1
            };
            assert(f3[k] == f2[j]);
            let a = f2[j].0 as int;
            let b = f2[j].1 as int;
            if j < f1.len() {
                assert(f2[j] != f1[idx]);
                assert(m1.cell(a, b) == CellType::ExposedUndertermined);
                assert(m2.cell(a, b) == Self::carved_cell(m1, cy, cx, a, b));
            } else {
                assert(Self::newly_exposed(m1, cy, cx, f2[j]));
                assert(m2.cell(a, b) == Self::carved_cell(m1, cy, cx, a, b));
            }
        }

        // every exposed cell of the carved grid is still listed
        assert forall|a: int, b: int|
            m2.in_bounds(a, b) && m2.cell(a, b) == CellType::ExposedUndertermined implies exists|
            k: int,
        |
            0 <= k < f3.len() && f3[k] == (a as usize, b as usize) by {
            assert(m2.cell(a, b) == Self::carved_cell(m1, cy, cx, a, b));
            if m1.cell(a, b) == CellType::ExposedUndertermined {
                let k = choose|k: int| 0 <= k < f1.len() && f1[k] == (a as usize, b as usize);
                assert(!(a == cy && b == cx));
                assert(f1[k] != f1[idx]);
                if k < idx {
                    assert(f3[k] == f2[k]);
                } else {
                    assert(f3[k - 1] == f2[k]);
                }
            } else {
                assert(orth_adjacent(cy, cx, a, b) && m1.cell(a, b)
                    == CellType::UnexposedUndertermined);
                let k = choose|k: int|
                    f1.len() <= k < f2.len() && f2[k] == (a as usize, b as usize);
                assert(f3[k - 1] == f2[k]);
            }
        }
    }

    /// Resolving the picked frontier entry by hardening keeps the frontier in
    /// step with the grid: the entry leaves the list as its cell leaves the
    /// exposed state.
    proof fn lemma_frontier_after_harden(
        m1: Self,
        m2: Self,
        f1: Seq<(usize, usize)>,
        cy: int,
        cx: int,
        idx: int,
    )
        requires
            m1.wf(),
            m1.in_bounds(cy, cx),
            m2.wf(),
            m2.spec_width() == m1.spec_width(),
            m2.spec_height() == m1.spec_height(),
            m2.cell(cy, cx) == CellType::Wall,
            forall|i: int, j: int|
                m1.in_bounds(i, j) && !(i == cy && j == cx) ==> #[trigger] m2.cell(i, j)
                    == m1.cell(i, j),
            m1.frontier_entries_exposed(f1),
            m1.frontier_covers_exposed(f1),
            f1.no_duplicates(),
            0 <= idx < f1.len(),
            f1[idx] == (cy as usize, cx as usize),
        ensures
            m2.frontier_entries_exposed(f1.remove(idx)),
            m2.frontier_covers_exposed(f1.remove(idx)),
            f1.remove(idx).no_duplicates(),
    {
        let f3 = f1.remove(idx);
        f1.remove_ensures(idx);
        lemma_remove_no_duplicates(f1, idx);

        assert forall|k: int| 0 <= k < f3.len() implies {
            &&& m2.in_bounds((#[trigger] f3[k]).0 as int, f3[k].1 as int)
            &&& m2.cell(f3[k].0 as int, f3[k].1 as int) == CellType::ExposedUndertermined
        } by {
            let j: int = if k < idx {
                k
            } else {
                k + 1
            };
            assert(f3[k] == f1[j]);
            assert(f1[j] != f1[idx]);
            assert(m1.cell(f1[j].0 as int, f1[j].1 as int) == CellType::ExposedUndertermined);
        }

        assert forall|a: int, b: int|
            m2.in_bounds(a, b) && m2.cell(a, b) == CellType::ExposedUndertermined implies exists|
            k: int,
        |
            0 <= k < f3.len() && f3[k] == (a as usize, b as usize) by {
            assert(!(a == cy && b == cx));
            assert(m1.cell(a, b) == CellType::ExposedUndertermined);
            let k = choose|k: int| 0 <= k < f1.len() && f1[k] == (a as usize, b as usize);
            assert(f1[k] != f1[idx]);
            if k < idx {
                assert(f3[k] == f1[k]);
            } else {
                assert(f3[k - 1] == f1[k]);
            }
        }
    }

    /// Every frontier entry is an exposed cell of the grid.
    pub open spec fn frontier_entries_exposed(self, f: Seq<(usize, usize)>) -> bool {
        forall|k: int|
            0 <= k < f.len() ==> {
                &&& self.in_bounds((#[trigger] f[k]).0 as int, f[k].1 as int)
                &&& self.cell(f[k].0 as int, f[k].1 as int) == CellType::ExposedUndertermined
            }
    }

    /// Every exposed cell of the grid stands somewhere in the frontier.
    pub open spec fn frontier_covers_exposed(self, f: Seq<(usize, usize)>) -> bool {
        forall|a: int, b: int|
            #![trigger self.cell(a, b)]
            self.in_bounds(a, b) && self.cell(a, b) == CellType::ExposedUndertermined
                ==> exists|k: int| 0 <= k < f.len() && f[k] == (a as usize, b as usize)
    }

    /// Run the randomized growing-tree algorithm from the start cell
    /// `(y_start, x_start)` until every cell is resolved.
    ///
    /// parameter `branchrate`: it controls the position in the frontier list
    /// chosen. Zero is an unbiased uniform pick, which gives many short
    /// branches. Positive makes the start of the list (the oldest exposed
    /// cells) more likely, producing longer corridors with fewer branch
    /// points; negative makes the end of the list (the most recently exposed
    /// cells) more likely, producing depth-first-like winding growth. Large
    /// magnitudes make the start point obvious; try values between -10 and
    /// 10, beyond which the rate is clamped.
    ///
    /// Afterwards every cell is a wall or a space, the spaces form one
    /// component reachable from the start cell, no two spaces touch only
    /// diagonally, and no wall could have been carved instead: the maze is
    /// maximal.
    pub fn generate(&mut self, x_start: usize, y_start: usize, branchrate: i64, rng: &mut StdRng)
        requires
            old(self).wf(),
            old(self).in_bounds(y_start as int, x_start as int),
            old(self).all_unexposed(),
        ensures
            final(self).wf(),
            final(self).spec_width() == old(self).spec_width(),
            final(self).spec_height() == old(self).spec_height(),
            final(self).all_resolved(),
            final(self).open_at(y_start as int, x_start as int),
            final(self).connected_from(y_start as int, x_start as int),
            final(self).no_diagonal_joins(),
            final(self).walls_unadmissible(),
            final(self).no_open_blocks(),
    {
        if y_start >= self.height || x_start >= self.width {
            // a start outside the grid is a caller contract violation: reject
            // before mutating any state
            return vstd::pervasive::unreached();
        }
        let ghost sy = y_start as int;
        let ghost sx = x_start as int;
        let ghost gw = self.spec_width();
        let ghost gh = self.spec_height();
        let ghost m0 = *self;

        // list of coordinates of exposed but undetermined cells
        let mut frontier: Vec<(usize, usize)> = Vec::new();
        self.carve(&mut frontier, y_start, x_start, rng);
        proof {
            m0.lemma_initial_invariants(sy, sx);
            Self::lemma_carve_connected(m0, *self, sy, sx, sy, sx);
            Self::lemma_carve_no_diag(m0, *self, sy, sx);
            Self::lemma_carve_exposure(m0, *self, sy, sx);
            Self::lemma_carve_walls(m0, *self, sy, sx);
            Self::lemma_carve_no_blocks(m0, *self, sy, sx);
            Self::lemma_carve_open_sets(m0, *self, sy, sx);
            Self::lemma_frontier_after_start_carve(m0, *self, frontier@, sy, sx);
        }

        while frontier.len() > 0
            invariant
                self.wf(),
                self.spec_width() == gw,
                self.spec_height() == gh,
                self.in_bounds(sy, sx),
                self.open_at(sy, sx),
                self.connected_from(sy, sx),
                self.no_diagonal_joins(),
                self.exposure_ok(),
                self.walls_blocked(),
                self.no_open_blocks(),
                self.frontier_entries_exposed(frontier@),
                self.frontier_covers_exposed(frontier@),
                frontier@.no_duplicates(),
            decreases self.und(),
        {
            // select a random edge
            let idx = pick_frontier_index(rng, frontier.len(), branchrate);
            let picked = frontier[idx];
            let y = picked.0;
            let x = picked.1;
            proof {
                assert(frontier@[idx as int] == picked);
                assert(self.in_bounds(y as int, x as int) && self.cell(y as int, x as int)
                    == CellType::ExposedUndertermined);
            }
            let ghost mpre = *self;
            let ghost fpre = frontier@;

            let ok = self.check(y, x, true);
            if ok {
                self.carve(&mut frontier, y, x, rng);
            } else {
                self.harden(y, x);
            }
            let ghost fmid = frontier@;
            frontier.remove(idx);
            proof {
                if ok {
                    Self::lemma_carve_connected(mpre, *self, sy, sx, y as int, x as int);
                    Self::lemma_carve_no_diag(mpre, *self, y as int, x as int);
                    Self::lemma_carve_exposure(mpre, *self, y as int, x as int);
                    Self::lemma_carve_walls(mpre, *self, y as int, x as int);
                    Self::lemma_carve_no_blocks(mpre, *self, y as int, x as int);
                    Self::lemma_carve_open_sets(mpre, *self, y as int, x as int);
                    Self::lemma_frontier_after_carve(
                        mpre,
                        *self,
                        fpre,
                        fmid,
                        y as int,
                        x as int,
                        idx as int,
                    );
                } else {
                    Self::lemma_harden_preserves(mpre, *self, y as int, x as int, sy, sx);
                    Self::lemma_frontier_after_harden(
                        mpre,
                        *self,
                        fpre,
                        y as int,
                        x as int,
                        idx as int,
                    );
                }
                assert(frontier@ == fmid.remove(idx as int));
            }
        }

        proof {
            Self::lemma_blocked_unadmissible(*self);
            assert forall|a: int, b: int| self.in_bounds(a, b) implies #[trigger] self.cell(a, b)
                != CellType::ExposedUndertermined by {
                if self.cell(a, b) == CellType::ExposedUndertermined {
                    let k = choose|k: int|
                        0 <= k < frontier@.len() && frontier@[k] == (a as usize, b as usize);
                    assert(false);
                }
            }
        }

        // set unexposed cells to be walls
        let mut i: usize = 0;
        while i < self.height
            invariant
                self.wf(),
                self.spec_width() == gw,
                self.spec_height() == gh,
                i <= gh,
                self.open_at(sy, sx),
                self.connected_from(sy, sx),
                self.no_diagonal_joins(),
                self.exposure_ok(),
                self.walls_unadmissible(),
                self.no_open_blocks(),
                self.no_exposed(),
                forall|a: int, b: int|
                    self.in_bounds(a, b) && a < i ==> #[trigger] self.cell(a, b)
                        != CellType::UnexposedUndertermined,
            decreases gh - i,
        {
            let mut j: usize = 0;
            while j < self.width
                invariant
                    self.wf(),
                    self.spec_width() == gw,
                    self.spec_height() == gh,
                    i < gh,
                    j <= gw,
                    self.open_at(sy, sx),
                    self.connected_from(sy, sx),
                    self.no_diagonal_joins(),
                    self.exposure_ok(),
                    self.walls_unadmissible(),
                    self.no_open_blocks(),
                    self.no_exposed(),
                    forall|a: int, b: int|
                        self.in_bounds(a, b) && (a < i || (a == i && b < j)) ==> #[trigger] self.cell(
                            a,
                            b,
                        ) != CellType::UnexposedUndertermined,
                decreases gw - j,
            {
                if *self.get_cell(j, i) == CellType::UnexposedUndertermined {
                    let ghost mp = *self;
                    self.harden(i, j);
                    proof {
                        Self::lemma_sweep_harden(mp, *self, i as int, j as int, sy, sx);
                    }
                }
                j = j + 1;
            }
            i = i + 1;
        }
    }

    /// The glyphs of row `y`, one per cell, leftmost column first.
    pub open spec fn row_chars(self, y: int) -> Seq<char> {
        Seq::new(self.spec_width() as nat, |x: int| glyph(self.cell(y, x)))
    }

    /// The rendering of the rows from `y` on: each row's glyphs followed by a
    /// newline.
    pub open spec fn spec_render_from(self, y: int) -> Seq<char>
        decreases self.spec_height() - y,
    {
        if y < 0 || y >= self.spec_height() {
            Seq::empty()
        } else {
            self.row_chars(y).push('\n') + self.spec_render_from(y + 1)
        }
    }

    /// The full rendering of the grid: one line per row, one glyph per cell.
    pub open spec fn spec_render(self) -> Seq<char> {
        self.spec_render_from(0)
    }

    /// Render the grid as text, one line per row: a space for each open cell,
    /// `#` for each wall, and `,` / `?` for cells a run left unresolved.
    /// The text is a diagnostic dump, not a durable serialization format.
    pub fn render(&self) -> (s: String)
        requires
            self.wf(),
        ensures
            s@ == self.spec_render(),
    {
        proof {
            reveal_strlit(" ");
            reveal_strlit("#");
            reveal_strlit(",");
            reveal_strlit("?");
            reveal_strlit("\n");
        }
        let mut s = String::new();
        let mut i: usize = 0;
        while i < self.height
            invariant
                self.wf(),
                i <= self.spec_height(),
                s@ + self.spec_render_from(i as int) == self.spec_render(),
            decreases self.spec_height() - i,
        {
            let ghost srow = s@;
            let mut j: usize = 0;
            while j < self.width
                invariant
                    self.wf(),
                    i < self.spec_height(),
                    j <= self.spec_width(),
                    s@ == srow + self.row_chars(i as int).subrange(0, j as int),
                decreases self.spec_width() - j,
            {
                proof {
                    reveal_strlit(" ");
                    reveal_strlit("#");
                    reveal_strlit(",");
                    reveal_strlit("?");
                }
                let c = *self.get_cell(j, i);
                match c {
                    CellType::Empty => s.append(" "),
                    CellType::ExposedUndertermined => s.append(","),
                    CellType::UnexposedUndertermined => s.append("?"),
                    CellType::Wall => s.append("#"),
                }
                proof {
                    assert(s@ =~= srow + self.row_chars(i as int).subrange(0, j as int + 1));
                }
                j = j + 1;
            }
            proof {
                reveal_strlit("\n");
                assert(self.row_chars(i as int).subrange(0, self.spec_width())
                    =~= self.row_chars(i as int));
            }
            s.append("\n");
            proof {
                assert(s@ =~= srow + self.row_chars(i as int).push('\n'));
                assert(s@ + self.spec_render_from(i as int + 1) =~= srow + self.spec_render_from(
                    i as int,
                ));
            }
            i = i + 1;
        }
        proof {
            assert(s@ + self.spec_render_from(i as int) =~= s@);
        }
        s
    }

    /// Returns `(height, width)`.
    pub fn get_size(&self) -> (r: (usize, usize))
        ensures
            r.0 == self.spec_height(),
            r.1 == self.spec_width(),
    {
        (self.height, self.width)
    }

    /// Get cell state by position; `x` is the column and `y` the row.
    pub fn get_cell(&self, x: usize, y: usize) -> (r: &CellType)
        requires
            self.wf(),
            self.in_bounds(y as int, x as int),
        ensures
            *r == self.cell(y as int, x as int),
    {
        if y >= self.height || x >= self.width {
            // out-of-range lookups are a caller contract violation: fail
            // loudly rather than silently wrap into another row
            return vstd::pervasive::unreached();
        }
        let i = self.cell_index(y, x);
        &self.grid[i]
    }
}

} // verus!
