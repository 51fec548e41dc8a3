//! Maze exploration: a grid of corridors, walls and fog, a breadth-first
//! path search, and the per-turn movement decision of an explorer who
//! must find the control room, trigger it, and escape to the target
//! within a countdown.

use std::collections::VecDeque;
use vstd::prelude::*;

verus! {

/// Maze dimensions stay below this bound, which keeps every coordinate
/// step and countdown update inside the machine range.
pub const MAZE_BOUND: i32 = 0x1000;

/// A cell coordinate: `x` is the column, `y` the row.
#[derive(Debug, Clone, Copy, PartialEq, Eq, Structural)]
pub struct Point {
    pub x: i32,
    pub y: i32,
}

/// A movement command, or the report that no path step is left.
#[derive(Debug, Clone, Copy, PartialEq, Eq, Structural)]
pub enum Move {
    Right,
    Left,
    Up,
    Down,
    PathEmpty,
}

/// Two cells share an edge.
pub open spec fn adjacent(a: Point, b: Point) -> bool {
    ||| (a.x == b.x && (a.y == b.y + 1 || a.y + 1 == b.y))
    ||| (a.y == b.y && (a.x == b.x + 1 || a.x + 1 == b.x))
}

/// The direction from one cell towards another, preferring the
/// horizontal axis; straight down when the two cells coincide.
pub open spec fn spec_direction(a: Point, b: Point) -> Move {
    if b.x < a.x {
        Move::Left
    } else if b.x > a.x {
        Move::Right
    } else if b.y < a.y {
        Move::Up
    } else {
        Move::Down
    }
}

impl Point {
    /// A point from its two coordinates.
    pub fn new(x: i32, y: i32) -> (r: Point)
        ensures
            r == (Point { x, y }),
    {
        Point { x, y }
    }

    /// Overwrite both coordinates.
    pub fn update(&mut self, x: i32, y: i32)
        ensures
            *final(self) == (Point { x, y }),
    {
        self.x = x;
        self.y = y;
    }

    /// The point lies on a `xmax` by `ymax` grid.
    pub fn in_bounds(&self, xmax: i32, ymax: i32) -> (r: bool)
        ensures
            r == (0 <= self.x < xmax && 0 <= self.y < ymax),
    {
        self.x >= 0 && self.x < xmax && self.y >= 0 && self.y < ymax
    }

    /// The cell one column to the left.
    pub fn get_left(&self) -> (r: Point)
        requires
            self.x > i32::MIN,
        ensures
            r == (Point { x: (self.x - 1) as i32, y: self.y }),
    {
        Point { x: self.x - 1, y: self.y }
    }

    /// The cell one column to the right.
    pub fn get_right(&self) -> (r: Point)
        requires
            self.x < i32::MAX,
        ensures
            r == (Point { x: (self.x + 1) as i32, y: self.y }),
    {
        Point { x: self.x + 1, y: self.y }
    }

    /// The cell one row up.
    pub fn get_up(&self) -> (r: Point)
        requires
            self.y > i32::MIN,
        ensures
            r == (Point { x: self.x, y: (self.y - 1) as i32 }),
    {
        Point { x: self.x, y: self.y - 1 }
    }

    /// The cell one row down.
    pub fn get_down(&self) -> (r: Point)
        requires
            self.y < i32::MAX,
        ensures
            r == (Point { x: self.x, y: (self.y + 1) as i32 }),
    {
        Point { x: self.x, y: self.y + 1 }
    }

    /// The four neighbouring cells, in the order right, left, up, down.
    pub fn get_neighbours(&self) -> (r: [Point; 4])
        requires
            i32::MIN < self.x < i32::MAX,
            i32::MIN < self.y < i32::MAX,
        ensures
            r@.len() == 4,
            r@[0] == (Point { x: (self.x + 1) as i32, y: self.y }),
            r@[1] == (Point { x: (self.x - 1) as i32, y: self.y }),
            r@[2] == (Point { x: self.x, y: (self.y - 1) as i32 }),
            r@[3] == (Point { x: self.x, y: (self.y + 1) as i32 }),
            forall|i: int| 0 <= i < 4 ==> adjacent(*self, #[trigger] r@[i]),
    {
        [self.get_right(), self.get_left(), self.get_up(), self.get_down()]
    }

    /// The direction of the first step from this cell towards another,
    /// the horizontal axis deciding first.
    pub fn get_direction(&self, other: &Point) -> (r: Move)
        requires
            -MAZE_BOUND < self.x < MAZE_BOUND,
            -MAZE_BOUND < self.y < MAZE_BOUND,
            -MAZE_BOUND < other.x < MAZE_BOUND,
            -MAZE_BOUND < other.y < MAZE_BOUND,
        ensures
            r == spec_direction(*self, *other),
    {
        let dx = other.x - self.x;
        let dy = other.y - self.y;
        if dx < 0 {
            Move::Left
        } else if dx > 0 {
            Move::Right
        } else if dy < 0 {
            Move::Up
        } else {
            Move::Down
        }
    }
}

/// The number of unvisited cells in one row of the visited grid.
pub open spec fn row_unseen(row: Seq<bool>) -> nat
    decreases row.len(),
{
    if row.len() == 0 {
        0
    } else {
        row_unseen(row.drop_last()) + (if row.last() {
            0nat
        } else {
            1nat
        })
    }
}

/// The number of unvisited cells on the whole visited grid.
pub open spec fn grid_unseen(g: Seq<Vec<bool>>) -> nat
    decreases g.len(),
{
    if g.len() == 0 {
        0
    } else {
        grid_unseen(g.drop_last()) + row_unseen(g.last()@)
    }
}

/// Marking one unvisited cell of a row lowers its count by one.
proof fn lemma_row_mark(row: Seq<bool>, x: int)
    requires
        0 <= x < row.len(),
        !row[x],
    ensures
        row_unseen(row.update(x, true)) == row_unseen(row) - 1,
    decreases row.len(),
{
    let row2 = row.update(x, true);
    if x == row.len() - 1 {
        assert(row2.drop_last() =~= row.drop_last());
    } else {
        assert(row2.drop_last() =~= row.drop_last().update(x, true));
        lemma_row_mark(row.drop_last(), x);
        assert(row2.last() == row.last());
    }
}

/// Replacing one row changes the grid's count by that row's difference.
proof fn lemma_grid_row_change(g: Seq<Vec<bool>>, y: int, row: Vec<bool>)
    requires
        0 <= y < g.len(),
    ensures
        grid_unseen(g.update(y, row)) == grid_unseen(g) - row_unseen(g[y]@) + row_unseen(row@),
    decreases g.len(),
{
    let g2 = g.update(y, row);
    if y == g.len() - 1 {
        assert(g2.drop_last() =~= g.drop_last());
    } else {
        assert(g2.drop_last() =~= g.drop_last().update(y, row));
        lemma_grid_row_change(g.drop_last(), y, row);
        assert(g2.last() == g.last());
    }
}

/// The maze as known so far: dimensions, one character row per line
/// (`#` wall, `.` corridor, `C` control room, `T` target, `?` fog), the
/// two special cells once discovered, and the search's visited marks.
pub struct Maze {
    pub r: i32,
    pub c: i32,
    pub grid: Vec<Vec<char>>,
    pub target: Option<Point>,
    pub control_room: Option<Point>,
    pub visited: Vec<Vec<bool>>,
}

/// The first position of a character in a row, or -1 when absent.
pub open spec fn find_char(row: Seq<char>, ch: char) -> int
    decreases row.len(),
{
    if row.len() == 0 {
        -1
    } else if row[0] == ch {
        0
    } else {
        let r = find_char(row.drop_first(), ch);
        if r < 0 {
            -1
        } else {
            r + 1
        }
    }
}

/// The character of the maze at a cell.
pub open spec fn cell_at(m: Maze, p: Point) -> char {
    m.grid@[p.y as int]@[p.x as int]
}

/// The cell lies on the maze.
pub open spec fn inside(m: Maze, p: Point) -> bool {
    0 <= p.x < m.c && 0 <= p.y < m.r
}

/// The cell can be walked on: a corridor, the control room or the
/// target.
pub open spec fn traversable(m: Maze, p: Point) -> bool {
    inside(m, p) && (cell_at(m, p) == '.' || cell_at(m, p) == 'C' || cell_at(m, p) == 'T')
}

/// The search has already marked the cell.
pub open spec fn seen(m: Maze, p: Point) -> bool {
    m.visited@[p.y as int]@[p.x as int]
}

/// Every point of a path from `start` walks on traversable cells, one
/// edge at a time, starting next to `start`.
pub open spec fn path_from(m: Maze, start: Point, p: Seq<Point>) -> bool {
    &&& forall|i: int| 0 <= i < p.len() ==> traversable(m, #[trigger] p[i])
    &&& forall|i: int| 1 <= i < p.len() ==> adjacent(#[trigger] p[i - 1], p[i])
    &&& p.len() > 0 ==> adjacent(start, p[0])
}

impl Maze {
    /// Consistent dimensions, rows of the right length, and special
    /// cells on the board once found.
    pub open spec fn wf(&self) -> bool {
        &&& 0 < self.r < MAZE_BOUND
        &&& 0 < self.c < MAZE_BOUND
        &&& self.grid@.len() == self.r
        &&& forall|y: int| 0 <= y < self.r ==> (#[trigger] self.grid@[y])@.len() == self.c
        &&& self.visited@.len() == self.r
        &&& forall|y: int| 0 <= y < self.r ==> (#[trigger] self.visited@[y])@.len() == self.c
        &&& (self.target is Some ==> inside(*self, self.target->0))
        &&& (self.control_room is Some ==> inside(*self, self.control_room->0))
    }

    /// An unexplored maze of the given dimensions: all fog, nothing
    /// visited, no special cell found yet.
    pub fn new(r: i32, c: i32) -> (m: Maze)
        requires
            0 < r < MAZE_BOUND,
            0 < c < MAZE_BOUND,
        ensures
            m.wf(),
            m.r == r,
            m.c == c,
            m.target is None,
            m.control_room is None,
            forall|y: int, x: int|
                0 <= y < r && 0 <= x < c ==> m.grid@[y]@[x] == '?' && !m.visited@[y]@[x],
    {
        let mut grid: Vec<Vec<char>> = Vec::new();
        let mut visited: Vec<Vec<bool>> = Vec::new();
        let mut y: usize = 0;
        while y < r as usize
            invariant
                0 < r < MAZE_BOUND,
                0 < c < MAZE_BOUND,
                y <= r as usize,
                grid@.len() == y,
                visited@.len() == y,
                forall|j: int| 0 <= j < y ==> (#[trigger] grid@[j])@.len() == c,
                forall|j: int| 0 <= j < y ==> (#[trigger] visited@[j])@.len() == c,
                forall|j: int, x: int|
                    0 <= j < y && 0 <= x < c ==> grid@[j]@[x] == '?' && !visited@[j]@[x],
            decreases r as usize - y,
        {
            let mut row: Vec<char> = Vec::new();
            let mut vrow: Vec<bool> = Vec::new();
            let mut x: usize = 0;
            while x < c as usize
                invariant
                    0 < c < MAZE_BOUND,
                    x <= c as usize,
                    row@.len() == x,
                    vrow@.len() == x,
                    forall|k: int| 0 <= k < x ==> row@[k] == '?' && !vrow@[k],
                decreases c as usize - x,
            {
                row.push('?');
                vrow.push(false);
                x = x + 1;
            }
            grid.push(row);
            visited.push(vrow);
            y = y + 1;
        }
        Maze { r, c, grid, target: None, control_room: None, visited }
    }

    /// Install one scanned row of the maze and record the target and
    /// control room the first time each shows up.
    pub fn update_row(&mut self, i: usize, row: Vec<char>)
        requires
            old(self).wf(),
            i < old(self).r,
            row@.len() == old(self).c,
        ensures
            final(self).wf(),
            final(self).r == old(self).r,
            final(self).c == old(self).c,
            final(self).visited@ == old(self).visited@,
            final(self).grid@ == old(self).grid@.update(i as int, final(self).grid@[i as int]),
            final(self).grid@[i as int]@ == row@,
            final(self).target == (if old(self).target is None && find_char(row@, 'T') >= 0 {
                Some(Point { x: find_char(row@, 'T') as i32, y: i as i32 })
            } else {
                old(self).target
            }),
            final(self).control_room == (if old(self).control_room is None && find_char(
                row@,
                'C',
            ) >= 0 {
                Some(Point { x: find_char(row@, 'C') as i32, y: i as i32 })
            } else {
                old(self).control_room
            }),
    {
        let t = find_in_row(&row, 'T');
        let c = find_in_row(&row, 'C');
        match t {
            Some(x) => {
                if self.target.is_none() {
                    self.target = Some(Point { x: x as i32, y: i as i32 });
                }
            },
            None => {},
        }
        match c {
            Some(x) => {
                if self.control_room.is_none() {
                    self.control_room = Some(Point { x: x as i32, y: i as i32 });
                }
            },
            None => {},
        }
        self.grid.remove(i);
        self.grid.insert(i, row);
        proof {
            assert(self.grid@ =~= old(self).grid@.update(i as int, self.grid@[i as int]));
        }
    }

    /// The cell lies on the maze.
    pub fn is_in_bounds(&self, p: &Point) -> (r: bool)
        ensures
            r == inside(*self, *p),
    {
        p.x >= 0 && p.x < self.c && p.y >= 0 && p.y < self.r
    }

    /// The cell is a corridor.
    pub fn is_path(&self, p: &Point) -> (r: bool)
        requires
            self.wf(),
        ensures
            r == (inside(*self, *p) && cell_at(*self, *p) == '.'),
    {
        self.is_value(p, '.')
    }

    /// The cell lies on the maze and holds the given character.
    pub fn is_value(&self, p: &Point, value: char) -> (r: bool)
        requires
            self.wf(),
        ensures
            r == (inside(*self, *p) && cell_at(*self, *p) == value),
    {
        if p.in_bounds(self.c, self.r) {
            self.grid[p.y as usize][p.x as usize] == value
        } else {
            false
        }
    }

    /// The cell is the control room.
    pub fn is_control_room(&self, p: &Point) -> (r: bool)
        requires
            self.wf(),
        ensures
            r == (inside(*self, *p) && cell_at(*self, *p) == 'C'),
    {
        self.is_value(p, 'C')
    }

    /// The cell is the target.
    pub fn is_target(&self, p: &Point) -> (r: bool)
        requires
            self.wf(),
        ensures
            r == (inside(*self, *p) && cell_at(*self, *p) == 'T'),
    {
        self.is_value(p, 'T')
    }

    /// The cell is still fog.
    pub fn is_fog(&self, p: &Point) -> (r: bool)
        requires
            self.wf(),
        ensures
            r == (inside(*self, *p) && cell_at(*self, *p) == '?'),
    {
        self.is_value(p, '?')
    }

    /// The search has marked the cell.
    pub fn is_visited(&self, p: &Point) -> (r: bool)
        requires
            self.wf(),
            inside(*self, *p),
        ensures
            r == seen(*self, *p),
    {
        self.visited[p.y as usize][p.x as usize]
    }

    /// The cell is a corridor the search has not marked yet.
    pub fn is_not_visited_path(&self, p: &Point) -> (r: bool)
        requires
            self.wf(),
        ensures
            r == (inside(*self, *p) && cell_at(*self, *p) == '.' && !seen(*self, *p)),
    {
        self.is_path(p) && !self.visited[p.y as usize][p.x as usize]
    }

    /// The cell can be walked on and the search has not marked it yet.
    pub fn is_not_visited_tile(&self, p: &Point) -> (r: bool)
        requires
            self.wf(),
        ensures
            r == (traversable(*self, *p) && !seen(*self, *p)),
    {
        (self.is_path(p) || self.is_control_room(p) || self.is_target(p)) && !self.visited[p.y
            as usize][p.x as usize]
    }

    /// Mark a cell as reached by the current search.
    pub fn mark_visited(&mut self, p: &Point)
        requires
            old(self).wf(),
            inside(*old(self), *p),
        ensures
            final(self).wf(),
            final(self).r == old(self).r,
            final(self).c == old(self).c,
            final(self).grid@ == old(self).grid@,
            final(self).target == old(self).target,
            final(self).control_room == old(self).control_room,
            final(self).visited@ == old(self).visited@.update(
                p.y as int,
                final(self).visited@[p.y as int],
            ),
            final(self).visited@[p.y as int]@ == old(self).visited@[p.y as int]@.update(
                p.x as int,
                true,
            ),
    {
        let mut row = self.visited.remove(p.y as usize);
        let _was = row.remove(p.x as usize);
        row.insert(p.x as usize, true);
        self.visited.insert(p.y as usize, row);
        proof {
            assert(self.visited@ =~= old(self).visited@.update(
                p.y as int,
                self.visited@[p.y as int],
            ));
            assert(self.visited@[p.y as int]@ =~= old(self).visited@[p.y as int]@.update(
                p.x as int,
                true,
            ));
        }
    }

    /// Forget every mark of the previous search.
    pub fn reset_visited(&mut self)
        requires
            old(self).wf(),
        ensures
            final(self).wf(),
            final(self).r == old(self).r,
            final(self).c == old(self).c,
            final(self).grid@ == old(self).grid@,
            final(self).target == old(self).target,
            final(self).control_room == old(self).control_room,
            forall|y: int, x: int|
                0 <= y < final(self).r && 0 <= x < final(self).c
                    ==> !(#[trigger] final(self).visited@[y]@[x]),
    {
        let mut visited: Vec<Vec<bool>> = Vec::new();
        let mut y: usize = 0;
        while y < self.r as usize
            invariant
                *self == *old(self),
                y <= self.r as usize,
                0 < self.r < MAZE_BOUND,
                0 < self.c < MAZE_BOUND,
                visited@.len() == y,
                forall|j: int| 0 <= j < y ==> (#[trigger] visited@[j])@.len() == self.c,
                forall|j: int, x: int| 0 <= j < y && 0 <= x < self.c ==> !visited@[j]@[x],
            decreases self.r as usize - y,
        {
            let mut vrow: Vec<bool> = Vec::new();
            let mut x: usize = 0;
            while x < self.c as usize
                invariant
                    0 < self.c < MAZE_BOUND,
                    x <= self.c as usize,
                    vrow@.len() == x,
                    forall|k: int| 0 <= k < x ==> !vrow@[k],
                decreases self.c as usize - x,
            {
                vrow.push(false);
                x = x + 1;
            }
            visited.push(vrow);
            y = y + 1;
        }
        self.visited = visited;
    }
}

/// A queued search path: it starts at the search's origin and every
/// later point walks one edge at a time over traversable cells.
pub open spec fn qpath_ok(m: Maze, start: Point, p: Seq<Point>) -> bool {
    &&& p.len() >= 1
    &&& p[0] == start
    &&& forall|i: int| 1 <= i < p.len() ==> traversable(m, #[trigger] p[i])
    &&& forall|i: int| 1 <= i < p.len() ==> adjacent(p[i - 1], #[trigger] p[i])
}

impl Maze {
    /// Shortest-path search from `start` to `end` over corridors, the
    /// control room and the target: the returned path, when non-empty,
    /// walks cell to cell and ends at `end`; the marks of any earlier
    /// search are discarded first.
    pub fn bfs(&mut self, start: &Point, end: &Point) -> (res: VecDeque<Point>)
        requires
            old(self).wf(),
            inside(*old(self), *start),
        ensures
            final(self).wf(),
            final(self).r == old(self).r,
            final(self).c == old(self).c,
            final(self).grid@ == old(self).grid@,
            final(self).target == old(self).target,
            final(self).control_room == old(self).control_room,
            path_from(*final(self), *start, res@),
            res@.len() > 0 ==> res@[res@.len() - 1] == *end,
    {
        self.reset_visited();
        let mut queue: VecDeque<VecDeque<Point>> = VecDeque::new();
        let mut start_path: VecDeque<Point> = VecDeque::new();
        start_path.push_back(*start);
        queue.push_back(start_path);
        while queue.len() > 0
            invariant
                self.wf(),
                self.r == old(self).r,
                self.c == old(self).c,
                self.grid@ == old(self).grid@,
                self.target == old(self).target,
                self.control_room == old(self).control_room,
                inside(*self, *start),
                forall|i: int|
                    0 <= i < queue@.len() ==> qpath_ok(*self, *start, (#[trigger] queue@[i])@),
            decreases grid_unseen(self.visited@) * 4 + queue@.len(),
        {
            let mut path = match queue.pop_front() {
                Some(p) => p,
                None => {
                    proof {
                        assert(false);
                    }
                    VecDeque::new()
                },
            };
            let current = path[path.len() - 1];
            proof {
                assert(qpath_ok(*self, *start, path@));
                if path@.len() > 1 {
                    assert(traversable(*self, path@[path@.len() - 1]));
                }
            }
            if current.x == end.x && current.y == end.y {
                let ghost before = path@;
                let _first = path.pop_front();
                proof {
                    assert(path@ =~= before.drop_first());
                }
                return path;
            }
            let ngbs = current.get_neighbours();
            let ghost count_at_entry = grid_unseen(self.visited@);
            let ghost qlen_at_entry = queue@.len();
            let mut t: usize = 0;
            while t < 4
                invariant
                    self.wf(),
                    self.r == old(self).r,
                    self.c == old(self).c,
                    self.grid@ == old(self).grid@,
                    self.target == old(self).target,
                    self.control_room == old(self).control_room,
                    inside(*self, *start),
                    t <= 4,
                    ngbs@.len() == 4,
                    forall|i: int| 0 <= i < 4 ==> adjacent(current, #[trigger] ngbs@[i]),
                    qpath_ok(*self, *start, path@),
                    path@[path@.len() - 1] == current,
                    forall|i: int|
                        0 <= i < queue@.len() ==> qpath_ok(*self, *start, (#[trigger] queue@[i])@),
                    grid_unseen(self.visited@) * 4 + queue@.len() <= count_at_entry * 4
                        + qlen_at_entry,
                decreases 4 - t,
            {
                let n = ngbs[t];
                if self.is_not_visited_tile(&n) {
                    let mut new_path = clone_path(&path);
                    proof {
                        self.lemma_mark_unseen(n.x as int, n.y as int);
                    }
                    self.mark_visited(&n);
                    new_path.push_back(n);
                    proof {
                        assert(qpath_ok(*self, *start, new_path@)) by {
                            assert(forall|i: int|
                                0 <= i < path@.len() ==> new_path@[i] == path@[i]);
                            assert(new_path@[new_path@.len() - 1] == n);
                        }
                    }
                    queue.push_back(new_path);
                }
                t = t + 1;
            }
        }
        VecDeque::new()
    }

    /// Search from `start` for the nearest spot from which fog is
    /// visible: the returned path, when non-empty, walks cell to cell
    /// and its last cell touches a fog cell. The target cell is stepped
    /// through at most once.
    pub fn bfs_to_fog(&mut self, start: &Point) -> (res: VecDeque<Point>)
        requires
            old(self).wf(),
            inside(*old(self), *start),
        ensures
            final(self).wf(),
            final(self).r == old(self).r,
            final(self).c == old(self).c,
            final(self).grid@ == old(self).grid@,
            final(self).target == old(self).target,
            final(self).control_room == old(self).control_room,
            path_from(*final(self), *start, res@),
            res@.len() > 0 ==> exists|q: Point|
                adjacent(res@[res@.len() - 1], q) && inside(*final(self), q) && cell_at(
                    *final(self),
                    q,
                ) == '?',
    {
        self.reset_visited();
        let mut queue: VecDeque<VecDeque<Point>> = VecDeque::new();
        let mut start_path: VecDeque<Point> = VecDeque::new();
        start_path.push_back(*start);
        queue.push_back(start_path);
        while queue.len() > 0
            invariant
                self.wf(),
                self.r == old(self).r,
                self.c == old(self).c,
                self.grid@ == old(self).grid@,
                self.target == old(self).target,
                self.control_room == old(self).control_room,
                inside(*self, *start),
                forall|i: int|
                    0 <= i < queue@.len() ==> qpath_ok(*self, *start, (#[trigger] queue@[i])@),
            decreases grid_unseen(self.visited@) * 4 + queue@.len(),
        {
            let mut path = match queue.pop_front() {
                Some(p) => p,
                None => {
                    proof {
                        assert(false);
                    }
                    VecDeque::new()
                },
            };
            let current = path[path.len() - 1];
            proof {
                assert(qpath_ok(*self, *start, path@));
                if path@.len() > 1 {
                    assert(traversable(*self, path@[path@.len() - 1]));
                }
            }
            let ngbs = current.get_neighbours();
            let ghost count_at_entry = grid_unseen(self.visited@);
            let ghost qlen_at_entry = queue@.len();
            let mut t: usize = 0;
            while t < 4
                invariant
                    self.wf(),
                    self.r == old(self).r,
                    self.c == old(self).c,
                    self.grid@ == old(self).grid@,
                    self.target == old(self).target,
                    self.control_room == old(self).control_room,
                    inside(*self, *start),
                    t <= 4,
                    ngbs@.len() == 4,
                    forall|i: int| 0 <= i < 4 ==> adjacent(current, #[trigger] ngbs@[i]),
                    qpath_ok(*self, *start, path@),
                    path@[path@.len() - 1] == current,
                    forall|i: int|
                        0 <= i < queue@.len() ==> qpath_ok(*self, *start, (#[trigger] queue@[i])@),
                    grid_unseen(self.visited@) * 4 + queue@.len() <= count_at_entry * 4
                        + qlen_at_entry,
                decreases 4 - t,
            {
                let n = ngbs[t];
                if self.is_fog(&n) {
                    let ghost before = path@;
                    let _first = path.pop_front();
                    proof {
                        assert(path@ =~= before.drop_first());
                    }
                    return path;
                }
                let mut push = self.is_not_visited_path(&n);
                if !push {
                    if self.is_target(&n) {
                        push = !self.is_visited(&n);
                    }
                }
                if push {
                    let mut new_path = clone_path(&path);
                    proof {
                        self.lemma_mark_unseen(n.x as int, n.y as int);
                    }
                    self.mark_visited(&n);
                    new_path.push_back(n);
                    proof {
                        assert(qpath_ok(*self, *start, new_path@)) by {
                            assert(forall|i: int|
                                0 <= i < path@.len() ==> new_path@[i] == path@[i]);
                            assert(new_path@[new_path@.len() - 1] == n);
                        }
                    }
                    queue.push_back(new_path);
                }
                t = t + 1;
            }
        }
        VecDeque::new()
    }

    /// Shortest path from `start` to the control room, once it is known.
    pub fn path_to_control(&mut self, start: &Point) -> (res: VecDeque<Point>)
        requires
            old(self).wf(),
            inside(*old(self), *start),
            old(self).control_room is Some,
        ensures
            final(self).wf(),
            final(self).r == old(self).r,
            final(self).c == old(self).c,
            final(self).grid@ == old(self).grid@,
            final(self).target == old(self).target,
            final(self).control_room == old(self).control_room,
            path_from(*final(self), *start, res@),
            res@.len() > 0 ==> res@[res@.len() - 1] == old(self).control_room->0,
    {
        let cr = match self.control_room {
            Some(p) => p,
            None => {
                proof {
                    assert(false);
                }
                Point { x: 0, y: 0 }
            },
        };
        self.bfs(start, &cr)
    }

    /// Shortest path from the control room to the target, once both are
    /// known.
    pub fn path_to_target_from_control(&mut self) -> (res: VecDeque<Point>)
        requires
            old(self).wf(),
            old(self).control_room is Some,
            old(self).target is Some,
        ensures
            final(self).wf(),
            final(self).r == old(self).r,
            final(self).c == old(self).c,
            final(self).grid@ == old(self).grid@,
            final(self).target == old(self).target,
            final(self).control_room == old(self).control_room,
            path_from(*final(self), old(self).control_room->0, res@),
            res@.len() > 0 ==> res@[res@.len() - 1] == old(self).target->0,
    {
        let cr = match self.control_room {
            Some(p) => p,
            None => {
                proof {
                    assert(false);
                }
                Point { x: 0, y: 0 }
            },
        };
        let tg = match self.target {
            Some(p) => p,
            None => {
                proof {
                    assert(false);
                }
                Point { x: 0, y: 0 }
            },
        };
        self.bfs(&cr, &tg)
    }

    /// Marking an unvisited in-bounds cell lowers the visited grid's
    /// unseen count by one.
    proof fn lemma_mark_unseen(&self, x: int, y: int)
        requires
            self.wf(),
            0 <= x < self.c,
            0 <= y < self.r,
            !self.visited@[y]@[x],
        ensures
            forall|row: Vec<bool>|
                row@ == self.visited@[y]@.update(x, true) ==> grid_unseen(
                    #[trigger] self.visited@.update(y, row),
                ) == grid_unseen(self.visited@) - 1,
    {
        lemma_row_mark(self.visited@[y]@, x);
        assert forall|row: Vec<bool>|
            row@ == self.visited@[y]@.update(x, true) implies grid_unseen(
            #[trigger] self.visited@.update(y, row),
        ) == grid_unseen(self.visited@) - 1 by {
            lemma_grid_row_change(self.visited@, y, row);
        }
    }
}

/// The explorer: his position, the alarm countdown, whether he has
/// reached the control room yet, and the path he is following.
pub struct Kirk {
    pub location: Point,
    pub timeout: i32,
    pub control_room: bool,
    pub path: VecDeque<Point>,
}

impl Kirk {
    /// Coordinates the movement arithmetic can handle: the position and
    /// every queued path cell lie strictly within the coordinate bound.
    pub open spec fn wf(&self) -> bool {
        &&& -MAZE_BOUND < self.location.x < MAZE_BOUND
        &&& -MAZE_BOUND < self.location.y < MAZE_BOUND
        &&& forall|i: int|
            0 <= i < self.path@.len() ==> {
                &&& -MAZE_BOUND < (#[trigger] self.path@[i]).x < MAZE_BOUND
                &&& -MAZE_BOUND < self.path@[i].y < MAZE_BOUND
            }
    }

    /// An explorer before the first turn, with the alarm countdown.
    pub fn new(timeout: i32) -> (r: Kirk)
        ensures
            r.location == (Point { x: 0, y: 0 }),
            r.timeout == timeout,
            !r.control_room,
            r.path@.len() == 0,
            r.wf(),
    {
        Kirk { location: Point::new(0, 0), timeout, control_room: false, path: VecDeque::new() }
    }

    /// The first unvisited corridor around the current position, probed
    /// in the order right, left, up, down.
    pub fn check_neighbours(&self, map: &Maze) -> (r: Option<Move>)
        requires
            self.wf(),
            map.wf(),
        ensures
            ({
                let right = Point { x: (self.location.x + 1) as i32, y: self.location.y };
                let left = Point { x: (self.location.x - 1) as i32, y: self.location.y };
                let up = Point { x: self.location.x, y: (self.location.y - 1) as i32 };
                let down = Point { x: self.location.x, y: (self.location.y + 1) as i32 };
                r == (if fresh_corridor(*map, right) {
                    Some(Move::Right)
                } else if fresh_corridor(*map, left) {
                    Some(Move::Left)
                } else if fresh_corridor(*map, up) {
                    Some(Move::Up)
                } else if fresh_corridor(*map, down) {
                    Some(Move::Down)
                } else {
                    None::<Move>
                })
            }),
    {
        let next_cell = self.location.get_right();
        if map.is_not_visited_path(&next_cell) {
            return Some(Move::Right);
        }
        let next_cell = self.location.get_left();
        if map.is_not_visited_path(&next_cell) {
            return Some(Move::Left);
        }
        let next_cell = self.location.get_up();
        if map.is_not_visited_path(&next_cell) {
            return Some(Move::Up);
        }
        let next_cell = self.location.get_down();
        if map.is_not_visited_path(&next_cell) {
            return Some(Move::Down);
        }
        None
    }

    /// Take the next step of the current path: report the direction from
    /// the current position to the path's first cell and drop that cell,
    /// or report that the path is exhausted.
    pub fn move_on_path(&mut self) -> (r: Move)
        requires
            old(self).wf(),
        ensures
            final(self).wf(),
            final(self).location == old(self).location,
            final(self).timeout == old(self).timeout,
            final(self).control_room == old(self).control_room,
            old(self).path@.len() == 0 ==> r == Move::PathEmpty && final(self).path@ == old(
                self,
            ).path@,
            old(self).path@.len() > 0 ==> r == spec_direction(
                old(self).location,
                old(self).path@[0],
            ) && final(self).path@ == old(self).path@.drop_first(),
    {
        if self.path.len() > 0 {
            let next_tile = match self.path.pop_front() {
                Some(p) => p,
                None => {
                    proof {
                        assert(false);
                    }
                    Point { x: 0, y: 0 }
                },
            };
            proof {
                assert(self.path@ =~= old(self).path@.drop_first());
            }
            return self.location.get_direction(&next_tile);
        }
        Move::PathEmpty
    }

    /// One turn's decision: mark the current cell, remember reaching the
    /// control room, then either follow the path in hand, explore
    /// towards fog while the control room is unknown, head for the
    /// control room while the remaining countdown allows the escape, or
    /// run for the target.
    pub fn make_move(&mut self, map: &mut Maze) -> (r: Move)
        requires
            old(self).wf(),
            old(map).wf(),
            inside(*old(map), old(self).location),
            old(self).timeout > i32::MIN,
            old(map).control_room is Some && !old(self).control_room && cell_at(
                *old(map),
                old(self).location,
            ) != 'C' ==> old(map).target is Some,
            old(self).control_room || cell_at(*old(map), old(self).location) == 'C' ==> old(
                map,
            ).target is Some,
        ensures
            final(self).wf(),
            final(map).wf(),
            final(map).r == old(map).r,
            final(map).c == old(map).c,
            final(map).grid@ == old(map).grid@,
            final(map).target == old(map).target,
            final(map).control_room == old(map).control_room,
            final(self).location == old(self).location,
            final(self).control_room == (old(self).control_room || cell_at(
                *old(map),
                old(self).location,
            ) == 'C'),
    {
        map.mark_visited(&self.location);
        let at_control = map.is_value(&self.location, 'C');
        self.control_room = self.control_room || at_control;
        if self.path.len() > 0 {
            if self.control_room {
                self.timeout = self.timeout - 1;
            }
            return self.move_on_path();
        }
        let known_control = match map.control_room {
            Some(_) => true,
            None => false,
        };
        if !known_control {
            let p = map.bfs_to_fog(&self.location);
            proof {
                assert(forall|i: int|
                    0 <= i < p@.len() ==> traversable(*map, #[trigger] p@[i]));
            }
            self.path = p;
            return self.move_on_path();
        }
        if !self.control_room {
            let cr = match map.control_room {
                Some(c) => c,
                None => {
                    proof {
                        assert(false);
                    }
                    Point { x: 0, y: 0 }
                },
            };
            let p = map.bfs(&self.location, &cr);
            self.path = p;
            let ct = map.path_to_target_from_control();
            let ct_len = ct.len();
            let over = if self.timeout >= 0 {
                ct_len > self.timeout as usize
            } else {
                false
            };
            if self.path.len() == 0 || over {
                let p2 = map.bfs_to_fog(&self.location);
                self.path = p2;
            }
            return self.move_on_path();
        }
        let tg = match map.target {
            Some(t) => t,
            None => {
                proof {
                    assert(false);
                }
                Point { x: 0, y: 0 }
            },
        };
        let p = map.bfs(&self.location, &tg);
        self.path = p;
        self.timeout = self.timeout - 1;
        self.move_on_path()
    }
}

/// A corridor cell the current search has not marked yet.
pub open spec fn fresh_corridor(m: Maze, p: Point) -> bool {
    inside(m, p) && cell_at(m, p) == '.' && !seen(m, p)
}

/// The first position of a character in a row of the maze, if any.
fn find_in_row(row: &Vec<char>, ch: char) -> (r: Option<usize>)
    ensures
        r is Some ==> 0 <= find_char(row@, ch) < row@.len() && r->0 == find_char(row@, ch),
        r is None ==> find_char(row@, ch) == -1,
{
    let mut k: usize = 0;
    proof {
        assert(row@.skip(0) =~= row@);
    }
    while k < row.len()
        invariant
            k <= row@.len(),
            forall|j: int| 0 <= j < k ==> row@[j] != ch,
            find_char(row@, ch) == (if find_char(row@.skip(k as int), ch) < 0 {
                -1
            } else {
                find_char(row@.skip(k as int), ch) + k
            }),
        decreases row@.len() - k,
    {
        proof {
            assert(row@.skip(k as int)[0] == row@[k as int]);
            assert(row@.skip(k as int).drop_first() =~= row@.skip(k + 1));
        }
        if row[k] == ch {
            return Some(k);
        }
        k = k + 1;
    }
    proof {
        assert(row@.skip(row@.len() as int) =~= Seq::<char>::empty());
    }
    None
}

/// An exact copy of a path.
fn clone_path(p: &VecDeque<Point>) -> (r: VecDeque<Point>)
    ensures
        r@ == p@,
{
    let mut r: VecDeque<Point> = VecDeque::new();
    let mut k: usize = 0;
    while k < p.len()
        invariant
            k <= p@.len(),
            r@ == p@.take(k as int),
        decreases p@.len() - k,
    {
        r.push_back(p[k]);
        proof {
            assert(p@.take(k + 1).drop_last() =~= p@.take(k as int));
            assert(p@.take(k + 1).last() == p@[k as int]);
            assert(r@ =~= p@.take(k + 1));
        }
        k = k + 1;
    }
    proof {
        assert(p@.take(p@.len() as int) =~= p@);
    }
    r
}

} // verus!
