//! Grid model and greedy action heuristics for a two-player tile-control
//! game: a rectangular board of cells owned by either player, with moves,
//! recycler builds and unit spawns chosen by simple distance heuristics.

use vstd::prelude::*;

verus! {

/// Coordinates are kept below this bound so that every squared distance
/// and every cell index fits comfortably in the machine integers used.
pub const COORD_BOUND: u32 = 0x8000;

/// One cell of the board.
#[derive(Debug, Clone, Copy)]
pub struct Cell {
    pub scrap_amount: u32,
    pub owner: i32,
    pub units: u32,
    pub recycler: bool,
    pub can_build: bool,
    pub can_spawn: bool,
    pub in_recycler_range: bool,
}

impl Default for Cell {
    /// A neutral cell with no scrap, units or flags.
    fn default() -> (r: Cell)
        ensures
            r == (Cell {
                scrap_amount: 0,
                owner: 0,
                units: 0,
                recycler: false,
                can_build: false,
                can_spawn: false,
                in_recycler_range: false,
            }),
    {
        Cell {
            scrap_amount: 0,
            owner: 0,
            units: 0,
            recycler: false,
            can_build: false,
            can_spawn: false,
            in_recycler_range: false,
        }
    }
}

impl Cell {
    /// The cell belongs to this player.
    pub fn is_mine(&self) -> (r: bool)
        ensures
            r == (self.owner == 1),
    {
        self.owner == 1
    }
}

/// An action of one turn.
#[derive(Debug, Clone, Copy, PartialEq, Eq, Structural)]
pub enum Action {
    Wait,
    Move(u32, u32, u32, u32, u32),
    Build(u32, u32),
    Spawn(u32, u32, u32),
}

/// The squared Euclidean distance between two cells, as exact integers.
pub open spec fn spec_dist_squared(from: (u32, u32), to: (u32, u32)) -> int {
    (to.0 - from.0) * (to.0 - from.0) + (to.1 - from.1) * (to.1 - from.1)
}

/// The squared Euclidean distance between two cell coordinates.
pub fn dist_squared(from: (u32, u32), to: (u32, u32)) -> (r: u32)
    requires
        from.0 < COORD_BOUND,
        from.1 < COORD_BOUND,
        to.0 < COORD_BOUND,
        to.1 < COORD_BOUND,
    ensures
        r == spec_dist_squared(from, to),
        r < 0x8000_0000,
{
    let dx = to.0 as i32 - from.0 as i32;
    let dy = to.1 as i32 - from.1 as i32;
    proof {
        assert(dx * dx + dy * dy < 0x8000_0000 && dx * dx >= 0 && dy * dy >= 0)
            by (nonlinear_arith)
            requires
                -0x8000 < dx < 0x8000,
                -0x8000 < dy < 0x8000,
        ;
    }
    (dx * dx + dy * dy) as u32
}

/// The whole board plus the two players' resources, the indices of this
/// player's cells and the coordinates of everyone else's.
pub struct Grid {
    pub my_matter: u32,
    pub enemy_matter: u32,
    pub dim: (u32, u32),
    pub grid: Vec<Cell>,
    pub mine: Vec<usize>,
    pub others: Vec<(u32, u32)>,
}

impl Grid {
    /// A consistent grid: positive bounded dimensions, one cell per
    /// position, and every cached index or coordinate on the board.
    pub open spec fn wf(&self) -> bool {
        &&& 1 <= self.dim.0 < COORD_BOUND
        &&& 1 <= self.dim.1 < COORD_BOUND
        &&& self.grid@.len() == self.dim.0 * self.dim.1
        &&& forall|i: int| 0 <= i < self.mine@.len() ==> (#[trigger] self.mine@[i]) < self.grid@.len()
        &&& self.others@.len() <= self.grid@.len()
        &&& forall|i: int|
            0 <= i < self.others@.len() ==> {
                &&& (#[trigger] self.others@[i]).0 < self.dim.0
                &&& self.others@[i].1 < self.dim.1
            }
    }

    /// An empty board of the given dimensions, with the starting matter
    /// and no cached cell lists.
    pub fn new(width: u32, height: u32) -> (r: Grid)
        requires
            1 <= width < COORD_BOUND,
            1 <= height < COORD_BOUND,
        ensures
            r.wf(),
            r.dim == (width, height),
            r.my_matter == 10,
            r.enemy_matter == 10,
            r.grid@.len() == width * height,
            forall|i: int|
                0 <= i < r.grid@.len() ==> (#[trigger] r.grid@[i]).scrap_amount == 0
                    && r.grid@[i].owner == 0 && r.grid@[i].units == 0,
            r.mine@.len() == 0,
            r.others@.len() == 0,
    {
        proof {
            assert(width * height < 0x4000_0000) by (nonlinear_arith)
                requires
                    width < 0x8000,
                    height < 0x8000,
            ;
        }
        let n: usize = (width * height) as usize;
        let mut grid: Vec<Cell> = Vec::new();
        let mut i: usize = 0;
        while i < n
            invariant
                i <= n,
                grid@.len() == i,
                forall|j: int|
                    0 <= j < i ==> (#[trigger] grid@[j]).scrap_amount == 0 && grid@[j].owner == 0
                        && grid@[j].units == 0,
            decreases n - i,
        {
            grid.push(Cell::default());
            i = i + 1;
        }
        Grid {
            my_matter: 10,
            enemy_matter: 10,
            dim: (width, height),
            grid,
            mine: Vec::new(),
            others: Vec::new(),
        }
    }

    /// The in-bounds orthogonal neighbours of a cell index: left, right,
    /// top, bottom, with `None` standing for a missing side.
    pub fn get_neighbours(&self, index: usize) -> (r: [Option<usize>; 4])
        requires
            self.wf(),
            index < self.grid@.len(),
        ensures
            ({
                let w = self.dim.0 as int;
                let x = index as int % w;
                let y = index as int / w;
                &&& r@.len() == 4
                &&& r@[0] == (if x > 0 {
                    Some((index - 1) as usize)
                } else {
                    None::<usize>
                })
                &&& r@[1] == (if x < self.dim.0 - 1 {
                    Some((index + 1) as usize)
                } else {
                    None::<usize>
                })
                &&& r@[2] == (if y > 0 {
                    Some((index - self.dim.0) as usize)
                } else {
                    None::<usize>
                })
                &&& r@[3] == (if y < self.dim.1 - 1 {
                    Some((index + self.dim.0) as usize)
                } else {
                    None::<usize>
                })
            }),
    {
        proof {
            let w = self.dim.0 as int;
            let h = self.dim.1 as int;
            vstd::arithmetic::div_mod::lemma_fundamental_div_mod(index as int, w);
            vstd::arithmetic::div_mod::lemma_mod_bound(index as int, w);
            assert(index < w * h);
            assert((index as int) < h * w && w * h < 0x4000_0000) by (nonlinear_arith)
                requires
                    (index as int) < w * h,
                    0 < w < 0x8000,
                    0 < h < 0x8000,
            ;
            vstd::arithmetic::div_mod::lemma_multiply_divide_lt(index as int, w, h);
            assert(index as int / w >= 1 ==> index as int >= w) by (nonlinear_arith)
                requires
                    index as int == w * (index as int / w) + index as int % w,
                    index as int % w >= 0,
                    w >= 1,
            ;
        }
        let mut ret: [Option<usize>; 4] = [None, None, None, None];
        let w = self.dim.0;
        let x = (index as u64 % w as u64) as u32;
        let y = (index as u64 / w as u64) as u32;
        if x > 0 {
            ret[0] = Some(index - 1);
        }
        if x < w - 1 {
            ret[1] = Some(index + 1);
        }
        if y > 0 {
            ret[2] = Some(index - w as usize);
        }
        if y < self.dim.1 - 1 {
            proof {
                assert(index as int + self.dim.0 < self.dim.0 * self.dim.1)
                    by (nonlinear_arith)
                    requires
                        index as int / (self.dim.0 as int) < self.dim.1 - 1,
                        index as int == (self.dim.0 as int) * (index as int / (self.dim.0 as int))
                            + index as int % (self.dim.0 as int),
                        0 <= index as int % (self.dim.0 as int) < self.dim.0 as int,
                        self.dim.0 >= 1,
                ;
            }
            ret[3] = Some(index + w as usize);
        }
        ret
    }

    /// The column and row of a cell index.
    pub fn get_xy(&self, index: usize) -> (r: (u32, u32))
        requires
            self.wf(),
            index < self.grid@.len(),
        ensures
            r.0 == index as int % (self.dim.0 as int),
            r.1 == index as int / (self.dim.0 as int),
            r.0 < self.dim.0,
            r.1 < self.dim.1,
    {
        proof {
            let w = self.dim.0 as int;
            let h = self.dim.1 as int;
            vstd::arithmetic::div_mod::lemma_mod_bound(index as int, w);
            assert(index < w * h);
            assert((index as int) < h * w) by (nonlinear_arith)
                requires
                    (index as int) < w * h,
            ;
            vstd::arithmetic::div_mod::lemma_multiply_divide_lt(index as int, w, h);
        }
        let x = (index as u64 % self.dim.0 as u64) as u32;
        let yq: u64 = index as u64 / (self.dim.0 as u64);
        proof {
            assert(yq == index as int / (self.dim.0 as int));
            assert(yq < self.dim.1);
        }
        let y = yq as u32;
        (x, y)
    }

    /// Sum of squared distances from `xy` to every opposing cell.
    fn total_dist(&self, xy: (u32, u32)) -> (r: u64)
        requires
            self.wf(),
            xy.0 < COORD_BOUND,
            xy.1 < COORD_BOUND,
        ensures
            r == sum_dists(self.others@, xy),
            r < DIST_SENTINEL,
    {
        proof {
            assert((self.dim.0 as int) * (self.dim.1 as int) < 0x4000_0000) by (nonlinear_arith)
                requires
                    0 < self.dim.0 < 0x8000,
                    0 < self.dim.1 < 0x8000,
            ;
        }
        let mut acc: u64 = 0;
        let mut j: usize = 0;
        while j < self.others.len()
            invariant
                self.wf(),
                xy.0 < COORD_BOUND,
                xy.1 < COORD_BOUND,
                self.others@.len() < 0x4000_0000,
                j <= self.others@.len(),
                acc == sum_dists(self.others@.take(j as int), xy),
                acc <= (j as int) * 0x8000_0000,
            decreases self.others@.len() - j,
        {
            let d = dist_squared(xy, self.others[j]);
            proof {
                assert(self.others@.take(j + 1).drop_last() =~= self.others@.take(j as int));
                assert(self.others@.take(j + 1).last() == self.others@[j as int]);
                assert(acc + d <= (j + 1) * 0x8000_0000) by (nonlinear_arith)
                    requires
                        acc <= (j as int) * 0x8000_0000,
                        d < 0x8000_0000,
                ;
                assert((j + 1) * 0x8000_0000 <= (self.others@.len() as int) * 0x8000_0000)
                    by (nonlinear_arith)
                    requires
                        j + 1 <= self.others@.len(),
                ;
                assert((self.others@.len() as int) * 0x8000_0000 < DIST_SENTINEL)
                    by (nonlinear_arith)
                    requires
                        self.others@.len() < 0x4000_0000,
                ;
            }
            acc = acc + (d as u64);
            j = j + 1;
        }
        proof {
            assert(self.others@.take(self.others@.len() as int) =~= self.others@);
            assert((self.others@.len() as int) * 0x8000_0000 < DIST_SENTINEL)
                by (nonlinear_arith)
                requires
                    self.others@.len() < 0x4000_0000,
            ;
        }
        acc
    }

    /// Propose a recycler build: the first of this player's cells, in
    /// cached order, that may build and whose four neighbours all exist
    /// and hold no more scrap than it.
    pub fn check_build(&self) -> (r: Option<Action>)
        requires
            self.wf(),
        ensures
            ({
                let j = first_build(*self, self.mine@.len() as int);
                if self.my_matter < 10 {
                    r is None
                } else if j >= 0 {
                    let i = self.mine@[j] as int;
                    let w = self.dim.0 as int;
                    r == Some(Action::Build((i % w) as u32, (i / w) as u32))
                } else {
                    r is None
                }
            }),
    {
        if self.my_matter < 10 {
            return None;
        }
        let mut k: usize = 0;
        while k < self.mine.len()
            invariant
                self.wf(),
                self.my_matter >= 10,
                k <= self.mine@.len(),
                first_build(*self, k as int) == -1,
            decreases self.mine@.len() - k,
        {
            let i = self.mine[k];
            // binding the length lets the verifier see that every
            // neighbour index below fits the machine's integer range
            let glen = self.grid.len();
            let mut can = false;
            if self.grid[i].can_build {
                proof {
                    lemma_grid_index_bounds(self.dim.0 as int, self.dim.1 as int, i as int);
                }
                let ngb = self.get_neighbours(i);
                let scrap = self.grid[i].scrap_amount;
                can = true;
                match ngb[0] {
                    Some(idx) => {
                        if self.grid[idx].scrap_amount > scrap {
                            can = false;
                        }
                    },
                    None => {
                        can = false;
                    },
                }
                match ngb[1] {
                    Some(idx) => {
                        if self.grid[idx].scrap_amount > scrap {
                            can = false;
                        }
                    },
                    None => {
                        can = false;
                    },
                }
                match ngb[2] {
                    Some(idx) => {
                        if self.grid[idx].scrap_amount > scrap {
                            can = false;
                        }
                    },
                    None => {
                        can = false;
                    },
                }
                match ngb[3] {
                    Some(idx) => {
                        if self.grid[idx].scrap_amount > scrap {
                            can = false;
                        }
                    },
                    None => {
                        can = false;
                    },
                }
                proof {
                    let gi = i as int;
                    let w = self.dim.0 as int;
                    let x = gi % w;
                    let y = gi / w;
                    assert(x > 0 ==> ngb@[0] == Some((gi - 1) as usize));
                    assert(x < self.dim.0 - 1 ==> ngb@[1] == Some((gi + 1) as usize));
                    assert(y > 0 ==> ngb@[2] == Some((gi - w) as usize));
                    assert(y < self.dim.1 - 1 ==> ngb@[3] == Some((gi + w) as usize));
                    assert(can ==> build_ok(*self, gi));
                    assert(build_ok(*self, gi) ==> can);
                }
            }
            if can {
                proof {
                    assert(first_build(*self, k + 1) == k as int);
                    lemma_first_build_stable(*self, k + 1, self.mine@.len() as int);
                }
                let xy = self.get_xy(i);
                return Some(Action::Build(xy.0, xy.1));
            }
            k = k + 1;
        }
        None
    }

    /// Propose a spawn: one unit on the spawn-capable cell of this player
    /// that minimises the total squared distance to all opposing cells,
    /// the first such cell winning ties.
    pub fn check_spawn(&self) -> (r: Option<Action>)
        requires
            self.wf(),
        ensures
            ({
                let best = spawn_best(*self, self.mine@.len() as int);
                if self.my_matter < 10 {
                    r is None
                } else if best.1 < DIST_SENTINEL {
                    r == Some(Action::Spawn(1, best.0.0, best.0.1))
                } else {
                    r is None
                }
            }),
    {
        if self.my_matter < 10 {
            return None;
        }
        let mut bx: u32 = 0;
        let mut by: u32 = 0;
        let mut btd: u64 = DIST_SENTINEL;
        let mut k: usize = 0;
        while k < self.mine.len()
            invariant
                self.wf(),
                k <= self.mine@.len(),
                ({
                    let p = spawn_best(*self, k as int);
                    p.0.0 == bx && p.0.1 == by && p.1 == btd as int
                }),
                btd <= DIST_SENTINEL,
            decreases self.mine@.len() - k,
        {
            let i = self.mine[k];
            if self.grid[i].can_spawn {
                let xy = self.get_xy(i);
                let td = self.total_dist(xy);
                if td < btd {
                    bx = xy.0;
                    by = xy.1;
                    btd = td;
                }
            }
            k = k + 1;
        }
        if btd < DIST_SENTINEL {
            Some(Action::Spawn(1, bx, by))
        } else {
            None
        }
    }

    /// Propose a move of `amount` units from `from` towards the opposing
    /// cell that minimises the total squared distance to all opposing
    /// cells, the first such cell winning ties.
    pub fn check_move(&self, from: (u32, u32), amount: u32) -> (r: Option<Action>)
        requires
            self.wf(),
        ensures
            ({
                let best = move_best(*self, self.others@.len() as int);
                if self.my_matter < 10 {
                    r is None
                } else if best.1 < DIST_SENTINEL {
                    r == Some(Action::Move(amount, from.0, from.1, best.0.0, best.0.1))
                } else {
                    r is None
                }
            }),
    {
        if self.my_matter < 10 {
            return None;
        }
        let mut bx: u32 = 0;
        let mut by: u32 = 0;
        let mut btd: u64 = DIST_SENTINEL;
        let mut k: usize = 0;
        while k < self.others.len()
            invariant
                self.wf(),
                k <= self.others@.len(),
                ({
                    let p = move_best(*self, k as int);
                    p.0.0 == bx && p.0.1 == by && p.1 == btd as int
                }),
                btd <= DIST_SENTINEL,
            decreases self.others@.len() - k,
        {
            let xy = self.others[k];
            let td = self.total_dist(xy);
            if td < btd {
                bx = xy.0;
                by = xy.1;
                btd = td;
            }
            k = k + 1;
        }
        if btd < DIST_SENTINEL {
            Some(Action::Move(amount, from.0, from.1, bx, by))
        } else {
            None
        }
    }
}

/// A total distance strictly above any real sum of squared distances:
/// sums stay below `2^30 * 2^31`.
pub const DIST_SENTINEL: u64 = 0x4000_0000_0000_0000;

/// Sum of squared distances from `p` to every cell in the list.
pub open spec fn sum_dists(others: Seq<(u32, u32)>, p: (u32, u32)) -> int
    decreases others.len(),
{
    if others.len() == 0 {
        0
    } else {
        sum_dists(others.drop_last(), p) + spec_dist_squared(p, others.last())
    }
}

/// The neighbours of cell `i` all exist and hold no more scrap than it.
pub open spec fn neighbours_all_le(g: Grid, i: int) -> bool {
    let w = g.dim.0 as int;
    let x = i % w;
    let y = i / w;
    &&& x > 0
    &&& x < g.dim.0 - 1
    &&& y > 0
    &&& y < g.dim.1 - 1
    &&& g.grid@[i - 1].scrap_amount <= g.grid@[i].scrap_amount
    &&& g.grid@[i + 1].scrap_amount <= g.grid@[i].scrap_amount
    &&& g.grid@[i - w].scrap_amount <= g.grid@[i].scrap_amount
    &&& g.grid@[i + w].scrap_amount <= g.grid@[i].scrap_amount
}

/// Cell `i` may take a recycler and its whole neighbourhood qualifies.
pub open spec fn build_ok(g: Grid, i: int) -> bool {
    &&& g.grid@[i].can_build
    &&& neighbours_all_le(g, i)
}

/// The position, in the cached list of this player's cells, of the first
/// cell among the first `k` that qualifies for a build, or -1.
pub open spec fn first_build(g: Grid, k: int) -> int
    decreases k,
{
    if k <= 0 {
        -1
    } else {
        let p = first_build(g, k - 1);
        if p >= 0 {
            p
        } else if build_ok(g, g.mine@[k - 1] as int) {
            k - 1
        } else {
            -1
        }
    }
}

/// The best spawn choice over the first `k` cached cells of this player:
/// the coordinates and total squared distance of the spawn-capable cell
/// with the smallest total, earlier cells winning ties.
pub open spec fn spawn_best(g: Grid, k: int) -> ((u32, u32), int)
    decreases k,
{
    if k <= 0 {
        ((0u32, 0u32), DIST_SENTINEL as int)
    } else {
        let prev = spawn_best(g, k - 1);
        let i = g.mine@[k - 1] as int;
        if g.grid@[i].can_spawn {
            let w = g.dim.0 as int;
            let xy = ((i % w) as u32, (i / w) as u32);
            let td = sum_dists(g.others@, xy);
            if td < prev.1 {
                (xy, td)
            } else {
                prev
            }
        } else {
            prev
        }
    }
}

/// The best move target over the first `k` opposing cells: the one with
/// the smallest total squared distance to all opposing cells, earlier
/// cells winning ties.
pub open spec fn move_best(g: Grid, k: int) -> ((u32, u32), int)
    decreases k,
{
    if k <= 0 {
        ((0u32, 0u32), DIST_SENTINEL as int)
    } else {
        let prev = move_best(g, k - 1);
        let xy = g.others@[k - 1];
        let td = sum_dists(g.others@, xy);
        if td < prev.1 {
            (xy, td)
        } else {
            prev
        }
    }
}

/// Once a build cell is found among a prefix, longer prefixes keep it.
proof fn lemma_first_build_stable(g: Grid, k: int, n: int)
    requires
        0 <= k <= n,
        first_build(g, k) >= 0,
    ensures
        first_build(g, n) == first_build(g, k),
    decreases n - k,
{
    if n > k {
        lemma_first_build_stable(g, k, n - 1);
    }
}

/// In-bounds arithmetic for the four neighbours of a cell index on a
/// `w` by `h` grid.
proof fn lemma_grid_index_bounds(w: int, h: int, i: int)
    requires
        1 <= w,
        1 <= h,
        0 <= i < w * h,
    ensures
        i % w > 0 ==> 0 <= i - 1 < w * h,
        i % w < w - 1 ==> 0 <= i + 1 < w * h,
        i / w > 0 ==> 0 <= i - w < w * h,
        i / w < h - 1 ==> 0 <= i + w < w * h,
{
    vstd::arithmetic::div_mod::lemma_fundamental_div_mod(i, w);
    vstd::arithmetic::div_mod::lemma_mod_bound(i, w);
    vstd::arithmetic::div_mod::lemma_multiply_divide_lt(i, w, h);
    let x = i % w;
    let y = i / w;
    assert(x < w - 1 ==> i + 1 < w * h) by (nonlinear_arith)
        requires
            i == w * y + x,
            0 <= x < w,
            0 <= y < h,
    ;
    assert(y >= 1 ==> i - w >= 0) by (nonlinear_arith)
        requires
            i == w * y + x,
            0 <= x < w,
            0 <= y,
    ;
    assert(y < h - 1 ==> i + w < w * h) by (nonlinear_arith)
        requires
            i == w * y + x,
            0 <= x < w,
            0 <= y,
    ;
}

} // verus!
