//! Lake sizing on a rectangular map of land and water cells: a flood
//! fill walks a lake once, counts its cells, and caches the size in
//! every visited cell so later queries are answered directly.

use std::collections::VecDeque;
use vstd::prelude::*;

verus! {

/// One cell of the map.
#[derive(Clone, Copy, PartialEq, Eq, Structural)]
pub struct Cell {
    pub water: bool,
    pub lake_size: usize,
    pub visited: bool,
}

impl Cell {
    /// A cell from its map character: `#` is land, anything else water.
    pub fn from_char(c: &char) -> (r: Cell)
        ensures
            r.water == (*c != '#'),
            r.lake_size == 0,
            !r.visited,
    {
        if *c == '#' {
            Cell { water: false, lake_size: 0, visited: false }
        } else {
            Cell { water: true, lake_size: 0, visited: false }
        }
    }

    /// The cell is land.
    pub fn is_land(&self) -> (r: bool)
        ensures
            r == !self.water,
    {
        !self.water
    }

    /// The cell is water.
    pub fn is_water(&self) -> (r: bool)
        ensures
            r == self.water,
    {
        self.water
    }

    /// Whether the cell's lake size is already settled, and that size:
    /// land cells count as known with size zero, water cells are known
    /// once visited.
    pub fn is_known(&self) -> (r: (bool, usize))
        ensures
            r == (if self.water {
                (self.visited, self.lake_size)
            } else {
                (true, 0usize)
            }),
    {
        match self.is_water() {
            true => (self.visited, self.lake_size),
            false => (true, 0),
        }
    }
}

/// The number of unvisited water cells in one row.
pub open spec fn row_unvisited(row: Seq<Cell>) -> nat
    decreases row.len(),
{
    if row.len() == 0 {
        0
    } else {
        row_unvisited(row.drop_last()) + (if row.last().water && !row.last().visited {
            1nat
        } else {
            0nat
        })
    }
}

/// The number of unvisited water cells on the whole map.
pub open spec fn grid_unvisited(g: Seq<Vec<Cell>>) -> nat
    decreases g.len(),
{
    if g.len() == 0 {
        0
    } else {
        grid_unvisited(g.drop_last()) + row_unvisited(g.last()@)
    }
}

/// A row never holds more unvisited water cells than cells.
proof fn lemma_row_unvisited_bound(row: Seq<Cell>)
    ensures
        row_unvisited(row) <= row.len(),
    decreases row.len(),
{
    if row.len() > 0 {
        lemma_row_unvisited_bound(row.drop_last());
    }
}

/// Marking one unvisited water cell of a row lowers its count by one.
proof fn lemma_row_mark(row: Seq<Cell>, x: int)
    requires
        0 <= x < row.len(),
        row[x].water,
        !row[x].visited,
    ensures
        row_unvisited(row.update(x, Cell { visited: true, ..row[x] })) == row_unvisited(row) - 1,
    decreases row.len(),
{
    let row2 = row.update(x, Cell { visited: true, ..row[x] });
    if x == row.len() - 1 {
        assert(row2.drop_last() =~= row.drop_last());
    } else {
        assert(row2.drop_last() =~= row.drop_last().update(x, Cell { visited: true, ..row[x] }));
        lemma_row_mark(row.drop_last(), x);
        assert(row2.last() == row.last());
    }
}

/// Replacing one row changes the map's count by that row's difference.
proof fn lemma_grid_row_change(g: Seq<Vec<Cell>>, y: int, row: Vec<Cell>)
    requires
        0 <= y < g.len(),
    ensures
        grid_unvisited(g.update(y, row)) == grid_unvisited(g) - row_unvisited(g[y]@)
            + row_unvisited(row@),
    decreases g.len(),
{
    let g2 = g.update(y, row);
    if y == g.len() - 1 {
        assert(g2.drop_last() =~= g.drop_last());
    } else {
        assert(g2.drop_last() =~= g.drop_last().update(y, row));
        lemma_grid_row_change(g.drop_last(), y, row);
        assert(g2.last() == g.last());
    }
}

/// The map: its dimensions and one row of cells per line.
pub struct LakeMap {
    pub width: usize,
    pub height: usize,
    pub grid: Vec<Vec<Cell>>,
}

impl LakeMap {
    /// A consistent map: one row per line, one cell per column, at least
    /// one of each.
    pub open spec fn wf(&self) -> bool {
        &&& 1 <= self.width
        &&& 1 <= self.height
        &&& self.grid@.len() == self.height
        &&& self.height * self.width <= usize::MAX
        &&& forall|y: int| 0 <= y < self.height ==> (#[trigger] self.grid@[y])@.len() == self.width
    }

    /// The water layout of the map, row by row, as the water flag of
    /// each cell.
    pub open spec fn water_at(&self, x: int, y: int) -> bool {
        self.grid@[y]@[x].water
    }

    /// A map from parsed rows.
    pub fn new(width: usize, height: usize, grid: Vec<Vec<Cell>>) -> (r: LakeMap)
        requires
            1 <= width,
            1 <= height,
            height * width <= usize::MAX,
            grid@.len() == height,
            forall|y: int| 0 <= y < height as int ==> (#[trigger] grid@[y])@.len() == width,
        ensures
            r.wf(),
            r.width == width,
            r.height == height,
            r.grid@ == grid@,
    {
        LakeMap { width, height, grid }
    }

    /// The in-bounds orthogonal neighbours of a coordinate, in the order
    /// left, right, up, down.
    pub fn neighbours(&self, coords: (usize, usize)) -> (r: Vec<(usize, usize)>)
        requires
            self.wf(),
            coords.0 < self.width,
            coords.1 < self.height,
        ensures
            r@ == spec_neighbours(self.width as int, self.height as int, coords),
            forall|i: int|
                0 <= i < r@.len() ==> (#[trigger] r@[i]).0 < self.width && r@[i].1 < self.height,
    {
        let mut neighbours: Vec<(usize, usize)> = Vec::new();
        if coords.0 > 0 {
            neighbours.push((coords.0 - 1, coords.1));
        }
        if coords.0 < self.width - 1 {
            neighbours.push((coords.0 + 1, coords.1));
        }
        if coords.1 > 0 {
            neighbours.push((coords.0, coords.1 - 1));
        }
        if coords.1 < self.height - 1 {
            neighbours.push((coords.0, coords.1 + 1));
        }
        proof {
            assert(neighbours@ =~= spec_neighbours(
                self.width as int,
                self.height as int,
                coords,
            ));
        }
        neighbours
    }

    /// The cell at a coordinate is land.
    pub fn is_land(&self, coords: &(usize, usize)) -> (r: bool)
        requires
            self.wf(),
            coords.0 < self.width,
            coords.1 < self.height,
        ensures
            r == !self.water_at(coords.0 as int, coords.1 as int),
    {
        self.grid[coords.1][coords.0].is_land()
    }

    /// The cell at a coordinate is water.
    pub fn is_water(&self, coords: &(usize, usize)) -> (r: bool)
        requires
            self.wf(),
            coords.0 < self.width,
            coords.1 < self.height,
        ensures
            r == self.water_at(coords.0 as int, coords.1 as int),
    {
        self.grid[coords.1][coords.0].is_water()
    }

    /// Whether the lake size at a coordinate is already settled, and
    /// that size.
    pub fn is_known(&self, coords: &(usize, usize)) -> (r: (bool, usize))
        requires
            self.wf(),
            coords.0 < self.width,
            coords.1 < self.height,
        ensures
            ({
                let c = self.grid@[coords.1 as int]@[coords.0 as int];
                r == (if c.water {
                    (c.visited, c.lake_size)
                } else {
                    (true, 0usize)
                })
            }),
    {
        self.grid[coords.1][coords.0].is_known()
    }

    /// The cell at a coordinate is water not yet reached by any fill.
    pub fn is_unvisited_water(&self, coords: &(usize, usize)) -> (r: bool)
        requires
            self.wf(),
            coords.0 < self.width,
            coords.1 < self.height,
        ensures
            ({
                let c = self.grid@[coords.1 as int]@[coords.0 as int];
                r == (c.water && !c.visited)
            }),
    {
        self.grid[coords.1][coords.0].is_water() && !self.grid[coords.1][coords.0].visited
    }

    /// Mark the cell at a coordinate as visited.
    pub fn visit(&mut self, coords: &(usize, usize))
        requires
            old(self).wf(),
            coords.0 < old(self).width,
            coords.1 < old(self).height,
        ensures
            final(self).wf(),
            final(self).width == old(self).width,
            final(self).height == old(self).height,
            final(self).grid@ == old(self).grid@.update(
                coords.1 as int,
                final(self).grid@[coords.1 as int],
            ),
            final(self).grid@[coords.1 as int]@ == old(self).grid@[coords.1 as int]@.update(
                coords.0 as int,
                Cell { visited: true, ..old(self).grid@[coords.1 as int]@[coords.0 as int] },
            ),
    {
        let mut row = self.grid.remove(coords.1);
        let mut cell = row.remove(coords.0);
        cell.visited = true;
        row.insert(coords.0, cell);
        self.grid.insert(coords.1, row);
        proof {
            assert(self.grid@ =~= old(self).grid@.update(
                coords.1 as int,
                self.grid@[coords.1 as int],
            ));
            assert(self.grid@[coords.1 as int]@ =~= old(self).grid@[coords.1 as int]@.update(
                coords.0 as int,
                Cell { visited: true, ..old(self).grid@[coords.1 as int]@[coords.0 as int] },
            ));
        }
    }

    /// Store a lake size in the cell at a coordinate.
    pub fn update_cell(&mut self, coords: &(usize, usize), lake_size: usize)
        requires
            old(self).wf(),
            coords.0 < old(self).width,
            coords.1 < old(self).height,
        ensures
            final(self).wf(),
            final(self).width == old(self).width,
            final(self).height == old(self).height,
            final(self).grid@ == old(self).grid@.update(
                coords.1 as int,
                final(self).grid@[coords.1 as int],
            ),
            final(self).grid@[coords.1 as int]@ == old(self).grid@[coords.1 as int]@.update(
                coords.0 as int,
                Cell { lake_size, ..old(self).grid@[coords.1 as int]@[coords.0 as int] },
            ),
    {
        let mut row = self.grid.remove(coords.1);
        let mut cell = row.remove(coords.0);
        cell.lake_size = lake_size;
        row.insert(coords.0, cell);
        self.grid.insert(coords.1, row);
        proof {
            assert(self.grid@ =~= old(self).grid@.update(
                coords.1 as int,
                self.grid@[coords.1 as int],
            ));
            assert(self.grid@[coords.1 as int]@ =~= old(self).grid@[coords.1 as int]@.update(
                coords.0 as int,
                Cell { lake_size, ..old(self).grid@[coords.1 as int]@[coords.0 as int] },
            ));
        }
    }

    /// Measure the lake at a coordinate. A settled cell answers from its
    /// cache at once. Otherwise the fill walks the lake, marking each of
    /// its cells visited exactly once, and the answer is the number of
    /// water cells newly marked; that size is then cached in each of
    /// them.
    pub fn floodfill(&mut self, coords: (usize, usize)) -> (r: usize)
        requires
            old(self).wf(),
            coords.0 < old(self).width,
            coords.1 < old(self).height,
        ensures
            final(self).wf(),
            final(self).width == old(self).width,
            final(self).height == old(self).height,
            forall|x: int, y: int|
                0 <= x < old(self).width && 0 <= y < old(self).height ==> final(self).water_at(
                    x,
                    y,
                ) == old(self).water_at(x, y),
            ({
                let c = old(self).grid@[coords.1 as int]@[coords.0 as int];
                let known = if c.water {
                    c.visited
                } else {
                    true
                };
                if known {
                    *final(self) == *old(self) && r == (if c.water {
                        c.lake_size
                    } else {
                        0
                    })
                } else {
                    r == grid_unvisited(old(self).grid@) - grid_unvisited(final(self).grid@) && r
                        >= 1
                }
            }),
    {
        let status = self.is_known(&coords);
        if status.0 {
            return status.1;
        }
        let ghost count0 = grid_unvisited(self.grid@);
        let mut queue: VecDeque<(usize, usize)> = VecDeque::new();
        let mut cache: Vec<(usize, usize)> = Vec::new();
        queue.push_back(coords);
        proof {
            lemma_grid_total(self.grid@, self.width as int);
            self.lemma_mark_counts(coords.0 as int, coords.1 as int);
        }
        self.visit(&coords);
        let mut lake_size: usize = 1;
        while queue.len() > 0
            invariant
                self.wf(),
                self.width == old(self).width,
                self.height == old(self).height,
                forall|x: int, y: int|
                    0 <= x < self.width && 0 <= y < self.height ==> self.water_at(x, y) == old(
                        self,
                    ).water_at(x, y),
                forall|i: int|
                    0 <= i < queue@.len() ==> (#[trigger] queue@[i]).0 < self.width && queue@[i].1
                        < self.height,
                forall|i: int|
                    0 <= i < cache@.len() ==> (#[trigger] cache@[i]).0 < self.width && cache@[i].1
                        < self.height,
                lake_size >= 1,
                lake_size == count0 - grid_unvisited(self.grid@),
                count0 <= self.height * self.width,
            decreases grid_unvisited(self.grid@) * 4 + queue@.len(),
        {
            let current = match queue.pop_front() {
                Some(c) => c,
                None => {
                    proof {
                        assert(false);
                    }
                    (0, 0)
                },
            };
            let ngbs = self.neighbours(current);
            let mut ni: usize = 0;
            let ghost count_at_entry = grid_unvisited(self.grid@);
            let ghost qlen_at_entry = queue@.len();
            while ni < ngbs.len()
                invariant
                    self.wf(),
                    self.width == old(self).width,
                    self.height == old(self).height,
                    forall|x: int, y: int|
                        0 <= x < self.width && 0 <= y < self.height ==> self.water_at(x, y)
                            == old(self).water_at(x, y),
                    forall|i: int|
                        0 <= i < ngbs@.len() ==> (#[trigger] ngbs@[i]).0 < self.width
                            && ngbs@[i].1 < self.height,
                    forall|i: int|
                        0 <= i < queue@.len() ==> (#[trigger] queue@[i]).0 < self.width
                            && queue@[i].1 < self.height,
                    forall|i: int|
                        0 <= i < cache@.len() ==> (#[trigger] cache@[i]).0 < self.width
                            && cache@[i].1 < self.height,
                    ni <= ngbs@.len(),
                    lake_size >= 1,
                    lake_size == count0 - grid_unvisited(self.grid@),
                    count0 <= self.height * self.width,
                    grid_unvisited(self.grid@) * 4 + queue@.len() <= count_at_entry * 4
                        + qlen_at_entry,
                decreases ngbs@.len() - ni,
            {
                let n = ngbs[ni];
                if self.is_unvisited_water(&n) {
                    proof {
                        self.lemma_mark_counts(n.0 as int, n.1 as int);
                    }
                    self.visit(&n);
                    queue.push_back(n);
                    lake_size = lake_size + 1;
                }
                ni = ni + 1;
            }
            cache.push(current);
        }
        let mut ci: usize = 0;
        while ci < cache.len()
            invariant
                self.wf(),
                self.width == old(self).width,
                self.height == old(self).height,
                forall|x: int, y: int|
                    0 <= x < self.width && 0 <= y < self.height ==> self.water_at(x, y) == old(
                        self,
                    ).water_at(x, y),
                forall|i: int|
                    0 <= i < cache@.len() ==> (#[trigger] cache@[i]).0 < self.width && cache@[i].1
                        < self.height,
                ci <= cache@.len(),
                lake_size >= 1,
                lake_size == count0 - grid_unvisited(self.grid@),
            decreases cache@.len() - ci,
        {
            let c = cache[ci];
            proof {
                self.lemma_cache_counts(c.0 as int, c.1 as int, lake_size);
            }
            self.update_cell(&c, lake_size);
            ci = ci + 1;
        }
        lake_size
    }

    /// Marking the cell at an in-bounds coordinate as visited lowers the
    /// map's unvisited-water count by one when the cell is unvisited
    /// water.
    proof fn lemma_mark_counts(&self, x: int, y: int)
        requires
            self.wf(),
            0 <= x < self.width,
            0 <= y < self.height,
            self.grid@[y]@[x].water,
            !self.grid@[y]@[x].visited,
        ensures
            forall|row: Vec<Cell>|
                row@ == self.grid@[y]@.update(
                    x,
                    Cell { visited: true, ..self.grid@[y]@[x] },
                ) ==> grid_unvisited(#[trigger] self.grid@.update(y, row)) == grid_unvisited(
                    self.grid@,
                ) - 1,
    {
        lemma_row_mark(self.grid@[y]@, x);
        assert forall|row: Vec<Cell>|
            row@ == self.grid@[y]@.update(
                x,
                Cell { visited: true, ..self.grid@[y]@[x] },
            ) implies grid_unvisited(#[trigger] self.grid@.update(y, row)) == grid_unvisited(
            self.grid@,
        ) - 1 by {
            lemma_grid_row_change(self.grid@, y, row);
        }
    }

    /// Writing a lake size into a cell leaves the unvisited-water count
    /// unchanged: the water and visited flags are untouched.
    proof fn lemma_cache_counts(&self, x: int, y: int, lake_size: usize)
        requires
            self.wf(),
            0 <= x < self.width,
            0 <= y < self.height,
        ensures
            forall|row: Vec<Cell>|
                row@ == self.grid@[y]@.update(
                    x,
                    Cell { lake_size, ..self.grid@[y]@[x] },
                ) ==> grid_unvisited(#[trigger] self.grid@.update(y, row)) == grid_unvisited(
                    self.grid@,
                ),
    {
        lemma_row_same_count(self.grid@[y]@, x, Cell { lake_size, ..self.grid@[y]@[x] });
        assert forall|row: Vec<Cell>|
            row@ == self.grid@[y]@.update(
                x,
                Cell { lake_size, ..self.grid@[y]@[x] },
            ) implies grid_unvisited(#[trigger] self.grid@.update(y, row)) == grid_unvisited(
            self.grid@,
        ) by {
            lemma_grid_row_change(self.grid@, y, row);
        }
    }
}

/// Replacing a cell by one with the same water and visited flags keeps
/// the row's unvisited-water count.
proof fn lemma_row_same_count(row: Seq<Cell>, x: int, c: Cell)
    requires
        0 <= x < row.len(),
        c.water == row[x].water,
        c.visited == row[x].visited,
    ensures
        row_unvisited(row.update(x, c)) == row_unvisited(row),
    decreases row.len(),
{
    let row2 = row.update(x, c);
    if x == row.len() - 1 {
        assert(row2.drop_last() =~= row.drop_last());
    } else {
        assert(row2.drop_last() =~= row.drop_last().update(x, c));
        lemma_row_same_count(row.drop_last(), x, c);
        assert(row2.last() == row.last());
    }
}

/// A map of `h` rows of `w` cells holds at most `w * h` unvisited water
/// cells.
proof fn lemma_grid_total(g: Seq<Vec<Cell>>, w: int)
    requires
        forall|y: int| 0 <= y < g.len() ==> (#[trigger] g[y])@.len() == w,
        w >= 0,
    ensures
        grid_unvisited(g) <= g.len() * w,
    decreases g.len(),
{
    if g.len() == 0 {
        assert(g.len() * w == 0) by (nonlinear_arith)
            requires
                g.len() == 0,
        ;
    } else {
        lemma_grid_total(g.drop_last(), w);
        lemma_row_unvisited_bound(g.last()@);
        assert((g.len() - 1) * w + w == g.len() * w) by (nonlinear_arith);
    }
}

/// The in-bounds orthogonal neighbours of a coordinate on a `w` by `h`
/// map, in the order left, right, up, down.
pub open spec fn spec_neighbours(w: int, h: int, c: (usize, usize)) -> Seq<(usize, usize)> {
    let s0: Seq<(usize, usize)> = if c.0 > 0 {
        seq![(((c.0 - 1) as usize), c.1)]
    } else {
        seq![]
    };
    let s1: Seq<(usize, usize)> = if c.0 < w - 1 {
        seq![(((c.0 + 1) as usize), c.1)]
    } else {
        seq![]
    };
    let s2: Seq<(usize, usize)> = if c.1 > 0 {
        seq![(c.0, ((c.1 - 1) as usize))]
    } else {
        seq![]
    };
    let s3: Seq<(usize, usize)> = if c.1 < h - 1 {
        seq![(c.0, ((c.1 + 1) as usize))]
    } else {
        seq![]
    };
    s0 + s1 + s2 + s3
}

} // verus!
