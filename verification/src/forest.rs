//! Board model and greedy move selection for a tree-growing game on a
//! 37-cell hexagonal forest: cells carry a richness and possibly a tree,
//! and each turn one action is picked by a simple gain estimate.

use vstd::prelude::*;

verus! {

/// Number of cells of the forest board.
pub const BOARD_SIZE: usize = 37;

/// A completed tree must be at least this common before harvesting early.
pub const MIN_TREE3_N: i32 = 3;

/// Do not keep more seeds than this on the board.
pub const MAX_TREE0_N: i32 = 3;

/// Do not keep more trees than this in total.
pub const MAX_TREES: i32 = 12;

/// Gains and costs stay within this bound, which keeps the gain
/// arithmetic far from overflow.
pub const VALUE_BOUND: i32 = 0x100_0000;

/// One tree on the board.
#[derive(Clone, Copy, PartialEq, Eq, Structural)]
pub struct Tree {
    pub cell_index: i32,
    pub size: i32,
    pub is_mine: bool,
    pub is_dormant: bool,
}

impl Tree {
    /// A tree from its four parsed fields.
    pub fn new(cell_index: i32, size: i32, is_mine: bool, is_dormant: bool) -> (r: Tree)
        ensures
            r == (Tree { cell_index, size, is_mine, is_dormant }),
    {
        Tree { cell_index, size, is_mine, is_dormant }
    }
}

/// One cell of the forest: its index, richness, current tree and the six
/// neighbouring cell indices.
pub struct Cell {
    pub index: i32,
    pub richness: i32,
    pub tree: Option<Tree>,
    pub neighbours: [i32; 6],
}

impl Cell {
    /// A treeless cell from its parsed fields.
    pub fn new(index: i32, richness: i32, neighbours: [i32; 6]) -> (r: Cell)
        ensures
            r.index == index,
            r.richness == richness,
            r.tree is None,
            r.neighbours@ == neighbours@,
    {
        Cell { index, richness, tree: None, neighbours }
    }

    /// Remove the cell's tree.
    pub fn reset_tree(&mut self)
        ensures
            final(self).tree is None,
            final(self).index == old(self).index,
            final(self).richness == old(self).richness,
            final(self).neighbours@ == old(self).neighbours@,
    {
        self.tree = None;
    }
}

/// The forest board: one cell per position.
pub struct Board {
    pub board: Vec<Cell>,
}

impl Board {
    /// Every richness is in the game's range 0 (unusable) to 3.
    pub open spec fn wf(&self) -> bool {
        forall|i: int|
            0 <= i < self.board@.len() ==> 0 <= (#[trigger] self.board@[i]).richness <= 3
    }

    /// A board from its 37 parsed cells.
    pub fn new(cells: Vec<Cell>) -> (r: Board)
        requires
            cells@.len() == BOARD_SIZE,
        ensures
            r.board@ == cells@,
    {
        Board { board: cells }
    }

    /// The points a completed tree earns from its cell's richness:
    /// two per richness level above one, never negative.
    pub fn get_cell_richness_points(&self, index: usize) -> (r: i32)
        requires
            self.wf(),
            index < self.board@.len(),
        ensures
            r == spec_richness_points(self.board@[index as int].richness as int),
    {
        let value = (self.board[index].richness - 1) * 2;
        if value > 0 {
            value
        } else {
            0
        }
    }

    /// Remove every tree from the board.
    pub fn reset_trees(&mut self)
        ensures
            final(self).board@.len() == old(self).board@.len(),
            forall|i: int|
                0 <= i < old(self).board@.len() ==> {
                    &&& (#[trigger] final(self).board@[i]).tree is None
                    &&& final(self).board@[i].index == old(self).board@[i].index
                    &&& final(self).board@[i].richness == old(self).board@[i].richness
                    &&& final(self).board@[i].neighbours@ == old(self).board@[i].neighbours@
                },
    {
        let mut i: usize = 0;
        while i < self.board.len()
            invariant
                i <= self.board@.len(),
                self.board@.len() == old(self).board@.len(),
                forall|j: int|
                    0 <= j < i ==> {
                        &&& (#[trigger] self.board@[j]).tree is None
                        &&& self.board@[j].index == old(self).board@[j].index
                        &&& self.board@[j].richness == old(self).board@[j].richness
                        &&& self.board@[j].neighbours@ == old(self).board@[j].neighbours@
                    },
                forall|j: int| i <= j < self.board@.len() ==> self.board@[j] == old(self).board@[j],
            decreases self.board@.len() - i,
        {
            let mut cell = self.board.remove(i);
            cell.reset_tree();
            self.board.insert(i, cell);
            i = i + 1;
        }
    }
}

/// The points for completing a tree on a cell of the given richness.
pub open spec fn spec_richness_points(richness: int) -> int {
    if (richness - 1) * 2 > 0 {
        (richness - 1) * 2
    } else {
        0
    }
}

/// The size of the first tree standing on the given cell, or zero when
/// the cell is bare.
pub open spec fn spec_tree_size(trees: Seq<Tree>, cell: i32) -> int
    decreases trees.len(),
{
    if trees.len() == 0 {
        0
    } else if trees[0].cell_index == cell {
        trees[0].size as int
    } else {
        spec_tree_size(trees.drop_first(), cell)
    }
}

/// The possible commands of one action.
#[derive(Clone, Copy, PartialEq, Eq, Structural)]
pub enum Command {
    Complete,
    Grow,
    Seed,
    Wait,
    Other,
}

/// One candidate action of a turn.
#[derive(Clone, Copy, PartialEq, Eq, Structural)]
pub struct Action {
    pub command: Command,
    pub cell_index: i32,
    pub target_index: i32,
}

impl Action {
    /// An action from its parsed fields.
    pub fn new(command: Command, cell_index: i32, target_index: i32) -> (r: Action)
        ensures
            r == (Action { command, cell_index, target_index }),
    {
        Action { command, cell_index, target_index }
    }
}

/// A player's resources.
#[derive(Clone, Copy, PartialEq, Eq, Structural)]
pub struct Player {
    pub sun: i32,
    pub score: i32,
    pub waiting: bool,
}

impl Player {
    /// A player before the first turn.
    pub fn new() -> (r: Player)
        ensures
            r == (Player { sun: 0, score: 0, waiting: false }),
    {
        Player { sun: 0, score: 0, waiting: false }
    }
}

/// One turn's view of the game: the board, the trees, the candidate
/// actions and both players' resources.
pub struct Game {
    pub day: i32,
    pub nutrients: i32,
    pub board: Board,
    pub trees: Vec<Tree>,
    pub actions: Vec<Action>,
    pub me: Player,
    pub opponent: Player,
    pub ntree0: i32,
    pub ntree1: i32,
    pub ntree2: i32,
    pub ntree3: i32,
}

/// The estimated gain of one action, mirroring the greedy evaluation:
/// completions score nutrients plus richness once allowed, growth pays a
/// size-dependent cost, waiting is a last resort, and seeding is limited
/// by the current seed and tree counts.
pub open spec fn spec_gain(g: Game, a: Action) -> int {
    let base = -2 * g.me.sun;
    if a.command == Command::Complete && (g.day > 20 || g.ntree3 > MIN_TREE3_N) {
        g.nutrients + spec_richness_points(g.board.board@[a.cell_index as int].richness as int)
    } else if a.command == Command::Grow {
        let size = spec_tree_size(g.trees@, a.cell_index);
        let cost: int = if size == 0 {
            1 + g.ntree1
        } else if size == 1 {
            3 + g.ntree2
        } else if size == 2 {
            7 + g.ntree3
        } else {
            1000000
        };
        spec_richness_points(g.board.board@[a.cell_index as int].richness as int) - cost + size
    } else if a.command == Command::Wait {
        base + 1
    } else if a.command == Command::Seed && g.ntree0 < MAX_TREE0_N && g.ntree0 + g.ntree1
        + g.ntree2 + g.ntree3 < MAX_TREES {
        spec_richness_points(g.board.board@[a.target_index as int].richness as int) - g.ntree0
    } else {
        base
    }
}

/// The index of the action with the highest estimated gain among the
/// first `k`, the earliest action winning ties, starting from index 0
/// with the baseline gain.
pub open spec fn spec_best_action(g: Game, k: int) -> (int, int)
    decreases k,
{
    if k <= 0 {
        (0, -2 * g.me.sun)
    } else {
        let prev = spec_best_action(g, k - 1);
        let cg = spec_gain(g, g.actions@[k - 1]);
        if cg > prev.1 {
            (k - 1, cg)
        } else {
            prev
        }
    }
}

impl Game {
    /// Bounded, in-range turn data: every quantity small enough for the
    /// gain arithmetic, and every action index on the board.
    pub open spec fn wf(&self) -> bool {
        &&& self.board.wf()
        &&& 0 <= self.day <= 23
        &&& 0 <= self.nutrients < VALUE_BOUND
        &&& 0 <= self.me.sun < VALUE_BOUND
        &&& 0 <= self.ntree0 < VALUE_BOUND
        &&& 0 <= self.ntree1 < VALUE_BOUND
        &&& 0 <= self.ntree2 < VALUE_BOUND
        &&& 0 <= self.ntree3 < VALUE_BOUND
        &&& forall|i: int|
            0 <= i < self.actions@.len() ==> {
                let a = #[trigger] self.actions@[i];
                &&& (a.command == Command::Complete || a.command == Command::Grow ==> 0
                    <= a.cell_index < self.board.board@.len())
                &&& (a.command == Command::Seed ==> 0 <= a.target_index
                    < self.board.board@.len())
            }
        &&& forall|i: int|
            0 <= i < self.trees@.len() ==> 0 <= (#[trigger] self.trees@[i]).size < VALUE_BOUND
    }

    /// The size of the first of this turn's trees on the given cell, or
    /// zero when there is none.
    pub fn get_tree_size(&self, cell: i32) -> (r: i32)
        ensures
            r == spec_tree_size(self.trees@, cell),
    {
        let mut k: usize = 0;
        proof {
            assert(self.trees@.skip(0) =~= self.trees@);
        }
        while k < self.trees.len()
            invariant
                k <= self.trees@.len(),
                spec_tree_size(self.trees@, cell) == spec_tree_size(
                    self.trees@.skip(k as int),
                    cell,
                ),
            decreases self.trees@.len() - k,
        {
            let t = self.trees[k];
            proof {
                assert(self.trees@.skip(k as int)[0] == self.trees@[k as int]);
                assert(self.trees@.skip(k as int).drop_first() =~= self.trees@.skip(k + 1));
            }
            if t.cell_index == cell {
                return t.size;
            }
            k = k + 1;
        }
        proof {
            assert(self.trees@.skip(self.trees@.len() as int) =~= Seq::<Tree>::empty());
        }
        0
    }

    /// Pick the turn's action: the index of the candidate with the
    /// highest estimated gain, the earliest one on ties, or index 0 when
    /// nothing beats the baseline.
    pub fn naive_move(&self) -> (r: usize)
        requires
            self.wf(),
        ensures
            r == spec_best_action(*self, self.actions@.len() as int).0,
            self.actions@.len() > 0 ==> r < self.actions@.len(),
            self.actions@.len() == 0 ==> r == 0,
    {
        let sun = self.me.sun;
        proof {
            // the solver needs the product's lower bound spelled out
            assert(-2 * (sun as int) >= -0x2000_0000);
        }
        let mut gain: i32 = -2 * sun;
        let mut action_index: usize = 0;
        let mut k: usize = 0;
        while k < self.actions.len()
            invariant
                self.wf(),
                k <= self.actions@.len(),
                ({
                    let p = spec_best_action(*self, k as int);
                    p.0 == action_index && p.1 == gain as int
                }),
                k > 0 ==> action_index < self.actions@.len(),
                k == 0 ==> action_index == 0,
                action_index <= k,
                -2 * VALUE_BOUND <= gain <= 2 * VALUE_BOUND,
            decreases self.actions@.len() - k,
        {
            let action = self.actions[k];
            let mut current_gain: i32 = -2 * self.me.sun;
            if matches!(action.command, Command::Complete) && (self.day > 20 || self.ntree3
                > MIN_TREE3_N) {
                current_gain = self.nutrients + self.board.get_cell_richness_points(
                    action.cell_index as usize,
                );
            } else if matches!(action.command, Command::Grow) {
                let size = self.get_tree_size(action.cell_index);
                proof {
                    lemma_tree_size_bound(self.trees@, action.cell_index);
                }
                let cost: i32 = if size == 0 {
                    1 + self.ntree1
                } else if size == 1 {
                    3 + self.ntree2
                } else if size == 2 {
                    7 + self.ntree3
                } else {
                    1000000
                };
                current_gain = self.board.get_cell_richness_points(action.cell_index as usize)
                    - cost + size;
            } else if matches!(action.command, Command::Wait) {
                current_gain = -2 * self.me.sun + 1;
            } else if matches!(action.command, Command::Seed) && self.ntree0 < MAX_TREE0_N
                && self.ntree0 + self.ntree1 + self.ntree2 + self.ntree3 < MAX_TREES {
                current_gain = self.board.get_cell_richness_points(action.target_index as usize)
                    - self.ntree0;
            }
            proof {
                assert(current_gain as int == spec_gain(*self, self.actions@[k as int]));
            }
            if current_gain > gain {
                gain = current_gain;
                action_index = k;
            }
            k = k + 1;
        }
        action_index
    }

    /// Recount this player's trees by size from the turn's tree list.
    pub fn tally_trees(&mut self)
        requires
            old(self).trees@.len() < VALUE_BOUND,
        ensures
            final(self).ntree0 == count_mine_of_size(old(self).trees@, 0),
            final(self).ntree1 == count_mine_of_size(old(self).trees@, 1),
            final(self).ntree2 == count_mine_of_size(old(self).trees@, 2),
            final(self).ntree3 == count_mine_of_size(old(self).trees@, 3),
            final(self).trees@ == old(self).trees@,
            final(self).actions@ == old(self).actions@,
            final(self).day == old(self).day,
            final(self).nutrients == old(self).nutrients,
            final(self).me == old(self).me,
            final(self).opponent == old(self).opponent,
            final(self).board.board@ == old(self).board.board@,
    {
        self.ntree0 = 0;
        self.ntree1 = 0;
        self.ntree2 = 0;
        self.ntree3 = 0;
        let mut k: usize = 0;
        while k < self.trees.len()
            invariant
                *self == (Game {
                    ntree0: self.ntree0,
                    ntree1: self.ntree1,
                    ntree2: self.ntree2,
                    ntree3: self.ntree3,
                    ..*old(self)
                }),
                k <= self.trees@.len(),
                self.trees@.len() < VALUE_BOUND,
                self.ntree0 == count_mine_of_size(self.trees@.take(k as int), 0),
                self.ntree1 == count_mine_of_size(self.trees@.take(k as int), 1),
                self.ntree2 == count_mine_of_size(self.trees@.take(k as int), 2),
                self.ntree3 == count_mine_of_size(self.trees@.take(k as int), 3),
            decreases self.trees@.len() - k,
        {
            let t = self.trees[k];
            proof {
                assert(self.trees@.take(k + 1).drop_last() =~= self.trees@.take(k as int));
                assert(self.trees@.take(k + 1).last() == self.trees@[k as int]);
                lemma_count_bound(self.trees@.take(k + 1), 0);
                lemma_count_bound(self.trees@.take(k + 1), 1);
                lemma_count_bound(self.trees@.take(k + 1), 2);
                lemma_count_bound(self.trees@.take(k + 1), 3);
            }
            if t.is_mine {
                if t.size == 0 {
                    self.ntree0 = self.ntree0 + 1;
                } else if t.size == 1 {
                    self.ntree1 = self.ntree1 + 1;
                } else if t.size == 2 {
                    self.ntree2 = self.ntree2 + 1;
                } else if t.size == 3 {
                    self.ntree3 = self.ntree3 + 1;
                }
            }
            k = k + 1;
        }
        proof {
            assert(self.trees@.take(self.trees@.len() as int) =~= self.trees@);
        }
    }

    /// Clear the turn's lists and counters and strip the board's trees.
    pub fn reset(&mut self)
        ensures
            final(self).trees@.len() == 0,
            final(self).actions@.len() == 0,
            final(self).ntree0 == 0,
            final(self).ntree1 == 0,
            final(self).ntree2 == 0,
            final(self).ntree3 == 0,
            forall|i: int|
                0 <= i < old(self).board.board@.len()
                    ==> (#[trigger] final(self).board.board@[i]).tree is None,
            final(self).board.board@.len() == old(self).board.board@.len(),
            final(self).day == old(self).day,
            final(self).nutrients == old(self).nutrients,
            final(self).me == old(self).me,
            final(self).opponent == old(self).opponent,
    {
        self.trees.clear();
        self.actions.clear();
        self.ntree0 = 0;
        self.ntree1 = 0;
        self.ntree2 = 0;
        self.ntree3 = 0;
        self.board.reset_trees();
    }
}

/// How many of this player's trees in the list have the given size.
pub open spec fn count_mine_of_size(trees: Seq<Tree>, size: i32) -> int
    decreases trees.len(),
{
    if trees.len() == 0 {
        0
    } else {
        count_mine_of_size(trees.drop_last(), size) + (if trees.last().is_mine
            && trees.last().size == size {
            1int
        } else {
            0int
        })
    }
}

/// A size count never exceeds the number of trees.
proof fn lemma_count_bound(trees: Seq<Tree>, size: i32)
    ensures
        0 <= count_mine_of_size(trees, size) <= trees.len(),
    decreases trees.len(),
{
    if trees.len() > 0 {
        lemma_count_bound(trees.drop_last(), size);
    }
}

/// Every tree size this module stores is non-negative, so a found size
/// stays within the gain arithmetic's bounds.
proof fn lemma_tree_size_bound(trees: Seq<Tree>, cell: i32)
    requires
        forall|i: int| 0 <= i < trees.len() ==> 0 <= (#[trigger] trees[i]).size < VALUE_BOUND,
    ensures
        0 <= spec_tree_size(trees, cell) < VALUE_BOUND,
    decreases trees.len(),
{
    if trees.len() > 0 && trees[0].cell_index != cell {
        lemma_tree_size_bound(trees.drop_first(), cell);
    }
}

} // verus!
