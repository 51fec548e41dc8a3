//! Window-to-window binary search over a rectangular building: each bomb
//! direction report halves the remaining search window.

use vstd::prelude::*;

verus! {

/// Coordinates stay below this bound, keeping the midpoint arithmetic
/// well inside the machine range.
pub const SEARCH_BOUND: i32 = 0x4000_0000;

/// The midpoint of an inclusive window, biased towards its lower end.
pub fn new_mid(max_val: i32, min_val: i32) -> (r: i32)
    requires
        0 <= min_val <= max_val,
    ensures
        r == min_val + (max_val - min_val) / 2,
        min_val <= r <= max_val,
{
    ((max_val - min_val) / 2) + min_val
}

/// A direction report: where the bomb lies relative to the current jump
/// position.
#[derive(Clone, Copy, PartialEq, Eq, Structural)]
pub enum BombDir {
    Up,
    UpRight,
    Right,
    DownRight,
    Down,
    DownLeft,
    Left,
    UpLeft,
}

/// The state of the search: the current jump position and the inclusive
/// window that still may hold the bomb.
#[derive(Clone, Copy, PartialEq, Eq, Structural)]
pub struct BombSearch {
    pub x: i32,
    pub y: i32,
    pub minx: i32,
    pub maxx: i32,
    pub miny: i32,
    pub maxy: i32,
}

/// The midpoint used by the search, as a specification value.
pub open spec fn spec_mid(max_val: int, min_val: int) -> int {
    (max_val - min_val) / 2 + min_val
}

/// Whether the report leaves room for the window update it demands:
/// a report with an upward component needs a row above the current one,
/// and so on for the other components.
pub open spec fn step_ok(s: BombSearch, dir: BombDir) -> bool {
    &&& ((dir == BombDir::Up || dir == BombDir::UpRight || dir == BombDir::UpLeft) ==> s.miny
        <= s.y - 1)
    &&& ((dir == BombDir::Down || dir == BombDir::DownRight || dir == BombDir::DownLeft)
        ==> s.y + 1 <= s.maxy)
    &&& ((dir == BombDir::Right || dir == BombDir::UpRight || dir == BombDir::DownRight) ==> s.x
        + 1 <= s.maxx)
    &&& ((dir == BombDir::Left || dir == BombDir::UpLeft || dir == BombDir::DownLeft) ==> s.minx
        <= s.x - 1)
}

/// The search state after one report: the window shrinks past the current
/// position on each reported axis and the position jumps to the new
/// window's midpoint on that axis.
pub open spec fn spec_step(s: BombSearch, dir: BombDir) -> BombSearch {
    let up = BombSearch { maxy: (s.y - 1) as i32, y: spec_mid(s.y - 1, s.miny as int) as i32, ..s };
    let down = BombSearch { miny: (s.y + 1) as i32, y: spec_mid(s.maxy as int, s.y + 1) as i32, ..s };
    match dir {
        BombDir::Up => up,
        BombDir::Down => down,
        BombDir::Right => BombSearch { minx: (s.x + 1) as i32, x: spec_mid(s.maxx as int, s.x + 1) as i32, ..s },
        BombDir::Left => BombSearch { maxx: (s.x - 1) as i32, x: spec_mid(s.x - 1, s.minx as int) as i32, ..s },
        BombDir::UpRight => BombSearch {
            minx: (s.x + 1) as i32,
            x: spec_mid(s.maxx as int, s.x + 1) as i32,
            ..up
        },
        BombDir::UpLeft => BombSearch { maxx: (s.x - 1) as i32, x: spec_mid(s.x - 1, s.minx as int) as i32, ..up },
        BombDir::DownRight => BombSearch {
            minx: (s.x + 1) as i32,
            x: spec_mid(s.maxx as int, s.x + 1) as i32,
            ..down
        },
        BombDir::DownLeft => BombSearch {
            maxx: (s.x - 1) as i32,
            x: spec_mid(s.x - 1, s.minx as int) as i32,
            ..down
        },
    }
}

impl BombSearch {
    /// A consistent search state: the position inside the window, the
    /// window inside the building's coordinate bound.
    pub open spec fn wf(&self) -> bool {
        &&& 0 <= self.minx <= self.x <= self.maxx < SEARCH_BOUND
        &&& 0 <= self.miny <= self.y <= self.maxy < SEARCH_BOUND
    }

    /// The search over a `w` by `h` building, starting at the given
    /// position.
    pub fn new(w: i32, h: i32, x: i32, y: i32) -> (r: BombSearch)
        requires
            0 < w < SEARCH_BOUND,
            0 < h < SEARCH_BOUND,
            0 <= x < w,
            0 <= y < h,
        ensures
            r == (BombSearch { x, y, minx: 0, maxx: (w - 1) as i32, miny: 0, maxy: (h - 1) as i32 }),
            r.wf(),
    {
        BombSearch { x, y, minx: 0, maxx: w - 1, miny: 0, maxy: h - 1 }
    }

    /// Apply one direction report: cut the window past the current
    /// position on each reported axis and jump to the new midpoint.
    pub fn step(&mut self, dir: BombDir)
        requires
            old(self).wf(),
            step_ok(*old(self), dir),
        ensures
            *final(self) == spec_step(*old(self), dir),
            final(self).wf(),
    {
        match dir {
            BombDir::Up => {
                self.maxy = self.y - 1;
                self.y = new_mid(self.maxy, self.miny);
            },
            BombDir::UpRight => {
                self.maxy = self.y - 1;
                self.y = new_mid(self.maxy, self.miny);
                self.minx = self.x + 1;
                self.x = new_mid(self.maxx, self.minx);
            },
            BombDir::Right => {
                self.minx = self.x + 1;
                self.x = new_mid(self.maxx, self.minx);
            },
            BombDir::DownRight => {
                self.minx = self.x + 1;
                self.x = new_mid(self.maxx, self.minx);
                self.miny = self.y + 1;
                self.y = new_mid(self.maxy, self.miny);
            },
            BombDir::Down => {
                self.miny = self.y + 1;
                self.y = new_mid(self.maxy, self.miny);
            },
            BombDir::DownLeft => {
                self.miny = self.y + 1;
                self.y = new_mid(self.maxy, self.miny);
                self.maxx = self.x - 1;
                self.x = new_mid(self.maxx, self.minx);
            },
            BombDir::Left => {
                self.maxx = self.x - 1;
                self.x = new_mid(self.maxx, self.minx);
            },
            BombDir::UpLeft => {
                self.maxx = self.x - 1;
                self.x = new_mid(self.maxx, self.minx);
                self.maxy = self.y - 1;
                self.y = new_mid(self.maxy, self.miny);
            },
        }
    }
}

} // verus!
