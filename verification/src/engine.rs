//! Breadth-first enumeration engine for a 3x3 tile-placement game.
//!
//! A board holds nine tiles, each either empty (0) or carrying a weight from
//! 1 to 6. Placing on an empty cell either captures a qualifying subset of
//! its neighbours (the cell takes their sum, they are cleared) or, when no
//! subset qualifies, puts a 1 there. The engine expands all placement
//! histories level by level up to a depth bound, merges duplicate boards
//! within a level while summing their history counts, and folds every board
//! that stops expanding into a checksum modulo 2^30.

use std::collections::HashMap;
use vstd::arithmetic::div_mod::{
    lemma_add_mod_noop, lemma_add_mod_noop_right, lemma_fundamental_div_mod_converse_div,
    lemma_fundamental_div_mod_converse_mod, lemma_mod_bound, lemma_mul_mod_noop_left,
    lemma_small_mod,
};
use vstd::prelude::*;

verus! {

/// The checksum modulus, 2^30.
pub const HASHMOD: u32 = 0x4000_0000;

/// Bit mask equal to `HASHMOD - 1`; `x % HASHMOD == x & BITWISE_HASHMOD`.
pub const BITWISE_HASHMOD: u32 = 0x3FFF_FFFF;

/// A well-formed board: nine tiles, each 0 (empty) or a weight up to 6.
pub open spec fn board_wf(b: Seq<u8>) -> bool {
    &&& b.len() == 9
    &&& forall|i: int| 0 <= i < 9 ==> b[i] <= 6
}

/// The board hash: the nine tiles read in row-major order as the digits of
/// a base-10 number, most significant first.
pub open spec fn board_code(b: Seq<u8>) -> int
    decreases b.len(),
{
    if b.len() == 0 {
        0
    } else {
        board_code(b.drop_last()) * 10 + b.last()
    }
}

/// 10^n.
pub open spec fn pow10(n: nat) -> int
    decreases n,
{
    if n == 0 {
        1
    } else {
        10 * pow10((n - 1) as nat)
    }
}

/// The orthogonal neighbours of each cell of the 3x3 grid, in index order.
pub open spec fn neighbours_of(cell: int) -> Seq<usize> {
    if cell == 0 {
        seq![1usize, 3]
    } else if cell == 1 {
        seq![0usize, 2, 4]
    } else if cell == 2 {
        seq![1usize, 5]
    } else if cell == 3 {
        seq![0usize, 4, 6]
    } else if cell == 4 {
        seq![1usize, 3, 5, 7]
    } else if cell == 5 {
        seq![2usize, 4, 8]
    } else if cell == 6 {
        seq![3usize, 7]
    } else if cell == 7 {
        seq![4usize, 6, 8]
    } else if cell == 8 {
        seq![5usize, 7]
    } else {
        seq![]
    }
}

/// The capture-subset table: for each cell, every subset of its neighbour
/// set with at least two members, smaller subsets first, in a fixed order.
pub open spec fn capture_subsets(cell: int) -> Seq<Seq<usize>> {
    if cell == 0 {
        seq![seq![1usize, 3]]
    } else if cell == 1 {
        seq![seq![0usize, 2], seq![0usize, 4], seq![2usize, 4], seq![0usize, 2, 4]]
    } else if cell == 2 {
        seq![seq![1usize, 5]]
    } else if cell == 3 {
        seq![seq![0usize, 4], seq![0usize, 6], seq![4usize, 6], seq![0usize, 4, 6]]
    } else if cell == 4 {
        seq![
            seq![1usize, 3],
            seq![1usize, 5],
            seq![1usize, 7],
            seq![3usize, 5],
            seq![3usize, 7],
            seq![5usize, 7],
            seq![1usize, 3, 5],
            seq![1usize, 3, 7],
            seq![1usize, 5, 7],
            seq![3usize, 5, 7],
            seq![1usize, 3, 5, 7],
        ]
    } else if cell == 5 {
        seq![seq![2usize, 4], seq![2usize, 8], seq![4usize, 8], seq![2usize, 4, 8]]
    } else if cell == 6 {
        seq![seq![3usize, 7]]
    } else if cell == 7 {
        seq![seq![4usize, 6], seq![4usize, 8], seq![6usize, 8], seq![4usize, 6, 8]]
    } else if cell == 8 {
        seq![seq![5usize, 7]]
    } else {
        seq![]
    }
}

/// Sum of the tile values at the given cell indices.
pub open spec fn subset_sum(b: Seq<u8>, s: Seq<usize>) -> int
    decreases s.len(),
{
    if s.len() == 0 {
        0
    } else {
        subset_sum(b, s.drop_last()) + b[s.last() as int]
    }
}

/// Every cell named by the subset currently holds a non-zero tile.
pub open spec fn subset_filled(b: Seq<u8>, s: Seq<usize>) -> bool {
    forall|i: int| 0 <= i < s.len() ==> b[#[trigger] s[i] as int] != 0
}

/// Every entry of an index list names a cell of the 3x3 board.
pub open spec fn cells_ok(s: Seq<usize>) -> bool {
    forall|k: int| 0 <= k < s.len() ==> s[k] < 9
}

/// An executable copy of one cell's capture-subset table, faithful to the
/// specification table entry for entry.
pub open spec fn cell_table_ok(t: Vec<Vec<usize>>, cell: int) -> bool {
    &&& t@.len() == capture_subsets(cell).len()
    &&& forall|i: int| 0 <= i < t@.len() ==> (#[trigger] t@[i])@ == capture_subsets(cell)[i]
    &&& forall|i: int| 0 <= i < t@.len() ==> cells_ok((#[trigger] t@[i])@)
}

/// The board after capturing subset `s` into `cell`: the cell takes the
/// subset's sum and every captured neighbour is cleared.
pub open spec fn capture_board(b: Seq<u8>, cell: int, s: Seq<usize>) -> Seq<u8> {
    Seq::new(
        b.len(),
        |i: int|
            if s.contains(i as usize) {
                0u8
            } else if i == cell {
                subset_sum(b, s) as u8
            } else {
                b[i]
            },
    )
}

/// A capture succeeds exactly when every named neighbour is filled and the
/// sum of their values is at most 6.
pub open spec fn spec_try_capture(b: Seq<u8>, cell: int, s: Seq<usize>) -> Option<Seq<u8>> {
    if subset_filled(b, s) && subset_sum(b, s) <= 6 {
        Some(capture_board(b, cell, s))
    } else {
        None
    }
}

/// The successor boards produced by the first `n` capture subsets of `cell`,
/// in table order.
pub open spec fn captures_upto(b: Seq<u8>, cell: int, n: int) -> Seq<Seq<u8>>
    decreases n,
{
    if n <= 0 {
        seq![]
    } else {
        let prev = captures_upto(b, cell, n - 1);
        match spec_try_capture(b, cell, capture_subsets(cell)[n - 1]) {
            Some(nb) => prev.push(nb),
            None => prev,
        }
    }
}

/// All successors of one placement on `cell`: every valid capture, or the
/// single "place a 1" board when no subset qualifies.
pub open spec fn spec_next_states(b: Seq<u8>, cell: int) -> Seq<Seq<u8>> {
    let caps = captures_upto(b, cell, capture_subsets(cell).len() as int);
    if caps.len() == 0 {
        seq![b.update(cell, 1u8)]
    } else {
        caps
    }
}

/// A terminal board has no empty cell left.
pub open spec fn spec_is_terminal(b: Seq<u8>) -> bool {
    forall|i: int| 0 <= i < b.len() ==> b[i] != 0
}

/// The successors of a board across its first `ncells` cells, empty cells
/// only, in cell order.
pub open spec fn successors_upto(b: Seq<u8>, ncells: int) -> Seq<Seq<u8>>
    decreases ncells,
{
    if ncells <= 0 {
        seq![]
    } else {
        successors_upto(b, ncells - 1) + (if b[ncells - 1] == 0 {
            spec_next_states(b, ncells - 1)
        } else {
            seq![]
        })
    }
}

/// Every successor of a board, across all of its empty cells.
pub open spec fn spec_successors(b: Seq<u8>) -> Seq<Seq<u8>> {
    successors_upto(b, 9)
}

/// A search frontier: distinct boards, each with the number of placement
/// histories that produced it.
pub type SpecFrontier = Seq<(Seq<u8>, nat)>;

/// Index of the first entry holding board `b`, or -1 when absent.
pub open spec fn find_board(f: SpecFrontier, b: Seq<u8>) -> int
    decreases f.len(),
{
    if f.len() == 0 {
        -1
    } else if f[0].0 == b {
        0
    } else {
        let r = find_board(f.drop_first(), b);
        if r < 0 {
            -1
        } else {
            r + 1
        }
    }
}

/// Merge one board carrying `m` histories into a frontier: add `m` to the
/// board's count when it is already present, append it otherwise.
pub open spec fn merge_one(f: SpecFrontier, b: Seq<u8>, m: nat) -> SpecFrontier {
    let i = find_board(f, b);
    if i >= 0 {
        f.update(i, (b, (f[i].1 + m) as nat))
    } else {
        f.push((b, m))
    }
}

/// Merge a sequence of boards, all carrying `m` histories, in order.
pub open spec fn merge_all(f: SpecFrontier, bs: Seq<Seq<u8>>, m: nat) -> SpecFrontier
    decreases bs.len(),
{
    if bs.len() == 0 {
        f
    } else {
        merge_one(merge_all(f, bs.drop_last(), m), bs.last(), m)
    }
}

/// Merge every successor of `b`, weighted by its multiplicity, into `f`.
pub open spec fn expand_entry(f: SpecFrontier, b: Seq<u8>, m: nat) -> SpecFrontier {
    merge_all(f, spec_successors(b), m)
}

/// The next level's frontier: every non-terminal board of `f` expanded, in
/// order; terminal boards are not carried over.
pub open spec fn level_next(f: SpecFrontier) -> SpecFrontier
    decreases f.len(),
{
    if f.len() == 0 {
        Seq::empty()
    } else {
        let prev = level_next(f.drop_last());
        let e = f.last();
        if spec_is_terminal(e.0) {
            prev
        } else {
            expand_entry(prev, e.0, e.1)
        }
    }
}

/// One checksum contribution: the board's hash added `m` times, each
/// addition reduced modulo 2^30.
pub open spec fn fold_entry(acc: int, m: nat, h: int) -> int {
    (acc + m * h) % (HASHMOD as int)
}

/// Fold the terminal boards of a level into the checksum, in order.
pub open spec fn level_fold(f: SpecFrontier, acc: int) -> int
    decreases f.len(),
{
    if f.len() == 0 {
        acc
    } else {
        let prev = level_fold(f.drop_last(), acc);
        let e = f.last();
        if spec_is_terminal(e.0) {
            fold_entry(prev, e.1, board_code(e.0))
        } else {
            prev
        }
    }
}

/// Fold every board of a frontier into the checksum, terminal or not.
pub open spec fn final_fold(f: SpecFrontier, acc: int) -> int
    decreases f.len(),
{
    if f.len() == 0 {
        acc
    } else {
        fold_entry(final_fold(f.drop_last(), acc), f.last().1, board_code(f.last().0))
    }
}

/// Run the search: expand level by level while fuel remains and the
/// frontier is non-empty, folding terminal boards as they appear; when the
/// fuel runs out, fold whatever is left.
pub open spec fn spec_run(f: SpecFrontier, fuel: nat, acc: int) -> int
    decreases fuel,
{
    if fuel == 0 || f.len() == 0 {
        final_fold(f, acc)
    } else {
        spec_run(level_next(f), (fuel - 1) as nat, level_fold(f, acc))
    }
}

/// The engine's whole contract: the checksum of a search that starts from
/// one board with a single history.
pub open spec fn spec_solve(b: Seq<u8>, depth: nat) -> int {
    spec_run(seq![(b, 1nat)], depth, 0)
}

/// A board whose tiles are all single digits hashes below 10^len.
pub proof fn lemma_code_bound(b: Seq<u8>)
    requires
        forall|i: int| 0 <= i < b.len() ==> b[i] <= 9,
    ensures
        0 <= board_code(b) < pow10(b.len()),
    decreases b.len(),
{
    if b.len() > 0 {
        lemma_code_bound(b.drop_last());
    }
}

/// The board hash is injective on boards of single-digit tiles: equal
/// hashes mean equal boards, so deduplicating by hash deduplicates boards.
pub proof fn lemma_code_injective(a: Seq<u8>, b: Seq<u8>)
    requires
        a.len() == b.len(),
        forall|i: int| 0 <= i < a.len() ==> a[i] <= 9,
        forall|i: int| 0 <= i < b.len() ==> b[i] <= 9,
        board_code(a) == board_code(b),
    ensures
        a == b,
    decreases a.len(),
{
    if a.len() == 0 {
        assert(a =~= b);
    } else {
        let ca = board_code(a.drop_last());
        let cb = board_code(b.drop_last());
        lemma_code_bound(a.drop_last());
        lemma_code_bound(b.drop_last());
        lemma_fundamental_div_mod_converse_mod(board_code(a), 10, ca, a.last() as int);
        lemma_fundamental_div_mod_converse_mod(board_code(b), 10, cb, b.last() as int);
        lemma_fundamental_div_mod_converse_div(board_code(a), 10, ca, a.last() as int);
        lemma_fundamental_div_mod_converse_div(board_code(b), 10, cb, b.last() as int);
        lemma_code_injective(a.drop_last(), b.drop_last());
        assert(a =~= b) by {
            assert(forall|i: int| 0 <= i < a.len() - 1 ==> a[i] == a.drop_last()[i] && b[i]
                == b.drop_last()[i]);
        }
    }
}

/// No two entries of the frontier hold the same board.
pub open spec fn frontier_distinct(f: SpecFrontier) -> bool {
    forall|i: int, j: int| #![trigger f[i], f[j]]
        0 <= i < j < f.len() ==> f[i].0 != f[j].0
}

/// `find_board` returns a valid index of the board, or -1 when the board
/// is absent.
pub proof fn lemma_find_board_props(f: SpecFrontier, b: Seq<u8>)
    ensures
        -1 <= find_board(f, b) < f.len(),
        find_board(f, b) >= 0 ==> f[find_board(f, b)].0 == b,
        find_board(f, b) == -1 ==> forall|j: int| 0 <= j < f.len() ==> (#[trigger] f[j]).0 != b,
    decreases f.len(),
{
    if f.len() > 0 && f[0].0 != b {
        lemma_find_board_props(f.drop_first(), b);
        if find_board(f, b) == -1 {
            assert forall|j: int| 0 <= j < f.len() implies (#[trigger] f[j]).0 != b by {
                if j > 0 {
                    assert(f.drop_first()[j - 1] == f[j]);
                }
            }
        }
    }
}

/// On a duplicate-free frontier, `find_board` finds exactly the entry that
/// holds the board.
pub proof fn lemma_find_board_at(f: SpecFrontier, b: Seq<u8>, j: int)
    requires
        frontier_distinct(f),
        0 <= j < f.len(),
        f[j].0 == b,
    ensures
        find_board(f, b) == j,
{
    lemma_find_board_props(f, b);
    let i = find_board(f, b);
    if i == -1 {
        assert(f[j].0 != b);
    } else if i < j {
        assert(f[i].0 != f[j].0);
    } else if i > j {
        assert(f[j].0 != f[i].0);
    }
}

/// Merging keeps the frontier duplicate-free.
pub proof fn lemma_merge_one_distinct(f: SpecFrontier, b: Seq<u8>, m: nat)
    requires
        frontier_distinct(f),
    ensures
        frontier_distinct(merge_one(f, b, m)),
{
    lemma_find_board_props(f, b);
    let g = merge_one(f, b, m);
    let i = find_board(f, b);
    if i >= 0 {
        assert forall|p: int, q: int| #![trigger g[p], g[q]]
            0 <= p < q < g.len() implies g[p].0 != g[q].0 by {
            assert(g[p].0 == f[p].0 && g[q].0 == f[q].0);
        }
    } else {
        assert forall|p: int, q: int| #![trigger g[p], g[q]]
            0 <= p < q < g.len() implies g[p].0 != g[q].0 by {
            if q < f.len() {
                assert(g[p].0 == f[p].0 && g[q].0 == f[q].0);
            } else {
                assert(g[q].0 == b && g[p].0 == f[p].0);
            }
        }
    }
}

/// Merging a concatenation merges the two halves one after the other.
pub proof fn lemma_merge_all_append(f: SpecFrontier, s1: Seq<Seq<u8>>, s2: Seq<Seq<u8>>, m: nat)
    ensures
        merge_all(f, s1 + s2, m) == merge_all(merge_all(f, s1, m), s2, m),
    decreases s2.len(),
{
    if s2.len() == 0 {
        assert(s1 + s2 =~= s1);
    } else {
        assert((s1 + s2).drop_last() =~= s1 + s2.drop_last());
        assert((s1 + s2).last() == s2.last());
        lemma_merge_all_append(f, s1, s2.drop_last(), m);
    }
}

/// A terminal board has no successors: no cell is empty, so no placement
/// is possible.
pub proof fn lemma_successors_terminal(b: Seq<u8>, n: int)
    requires
        spec_is_terminal(b),
        0 <= n <= b.len(),
    ensures
        successors_upto(b, n) == Seq::<Seq<u8>>::empty(),
    decreases n,
{
    if n > 0 {
        lemma_successors_terminal(b, n - 1);
        assert(successors_upto(b, n) =~= Seq::<Seq<u8>>::empty());
    }
}

/// A subset sum never falls below the sum of any of its prefixes: tile
/// values are non-negative.
pub proof fn lemma_subset_sum_prefix(b: Seq<u8>, s: Seq<usize>, j: int)
    requires
        0 <= j <= s.len(),
    ensures
        subset_sum(b, s.take(j)) <= subset_sum(b, s),
    decreases s.len(),
{
    if j == s.len() {
        assert(s.take(j) =~= s);
    } else {
        assert(s.drop_last().take(j) =~= s.take(j));
        lemma_subset_sum_prefix(b, s.drop_last(), j);
    }
}

/// A two-element index list.
fn pair(a: usize, b: usize) -> (r: Vec<usize>)
    requires
        a < 9,
        b < 9,
    ensures
        r@ == seq![a, b],
        cells_ok(r@),
{
    let mut r: Vec<usize> = Vec::new();
    r.push(a);
    r.push(b);
    proof {
        assert(r@ =~= seq![a, b]);
    }
    r
}

/// A three-element index list.
fn triple(a: usize, b: usize, c: usize) -> (r: Vec<usize>)
    requires
        a < 9,
        b < 9,
        c < 9,
    ensures
        r@ == seq![a, b, c],
        cells_ok(r@),
{
    let mut r: Vec<usize> = Vec::new();
    r.push(a);
    r.push(b);
    r.push(c);
    proof {
        assert(r@ =~= seq![a, b, c]);
    }
    r
}

/// A four-element index list.
fn quad(a: usize, b: usize, c: usize, d: usize) -> (r: Vec<usize>)
    requires
        a < 9,
        b < 9,
        c < 9,
        d < 9,
    ensures
        r@ == seq![a, b, c, d],
        cells_ok(r@),
{
    let mut r: Vec<usize> = Vec::new();
    r.push(a);
    r.push(b);
    r.push(c);
    r.push(d);
    proof {
        assert(r@ =~= seq![a, b, c, d]);
    }
    r
}

/// The orthogonal neighbours of a cell of the 3x3 grid, in index order.
pub fn neighbours(cell: usize) -> (r: Vec<usize>)
    requires
        cell < 9,
    ensures
        r@ == neighbours_of(cell as int),
{
    if cell == 0 {
        pair(1, 3)
    } else if cell == 1 {
        triple(0, 2, 4)
    } else if cell == 2 {
        pair(1, 5)
    } else if cell == 3 {
        triple(0, 4, 6)
    } else if cell == 4 {
        quad(1, 3, 5, 7)
    } else if cell == 5 {
        triple(2, 4, 8)
    } else if cell == 6 {
        pair(3, 7)
    } else if cell == 7 {
        triple(4, 6, 8)
    } else {
        pair(5, 7)
    }
}

/// The capture-subset table for one cell, as executable index lists.
pub fn capture_subsets_of(cell: usize) -> (r: Vec<Vec<usize>>)
    requires
        cell < 9,
    ensures
        r@.len() == capture_subsets(cell as int).len(),
        forall|i: int| 0 <= i < r@.len() ==> (#[trigger] r@[i])@ == capture_subsets(cell as int)[i],
        forall|i: int| 0 <= i < r@.len() ==> cells_ok((#[trigger] r@[i])@),
        cell_table_ok(r, cell as int),
{
    let mut r: Vec<Vec<usize>> = Vec::new();
    if cell == 0 {
        r.push(pair(1, 3));
    } else if cell == 1 {
        r.push(pair(0, 2));
        r.push(pair(0, 4));
        r.push(pair(2, 4));
        r.push(triple(0, 2, 4));
    } else if cell == 2 {
        r.push(pair(1, 5));
    } else if cell == 3 {
        r.push(pair(0, 4));
        r.push(pair(0, 6));
        r.push(pair(4, 6));
        r.push(triple(0, 4, 6));
    } else if cell == 4 {
        r.push(pair(1, 3));
        r.push(pair(1, 5));
        r.push(pair(1, 7));
        r.push(pair(3, 5));
        r.push(pair(3, 7));
        r.push(pair(5, 7));
        r.push(triple(1, 3, 5));
        r.push(triple(1, 3, 7));
        r.push(triple(1, 5, 7));
        r.push(triple(3, 5, 7));
        r.push(quad(1, 3, 5, 7));
    } else if cell == 5 {
        r.push(pair(2, 4));
        r.push(pair(2, 8));
        r.push(pair(4, 8));
        r.push(triple(2, 4, 8));
    } else if cell == 6 {
        r.push(pair(3, 7));
    } else if cell == 7 {
        r.push(pair(4, 6));
        r.push(pair(4, 8));
        r.push(pair(6, 8));
        r.push(triple(4, 6, 8));
    } else {
        r.push(pair(5, 7));
    }
    r
}

/// The capture-subset tables of all nine cells, built once per search.
fn full_table() -> (t: Vec<Vec<Vec<usize>>>)
    ensures
        t@.len() == 9,
        forall|c: int| 0 <= c < 9 ==> cell_table_ok(#[trigger] t@[c], c),
{
    let mut t: Vec<Vec<Vec<usize>>> = Vec::new();
    let mut c: usize = 0;
    while c < 9
        invariant
            c <= 9,
            t@.len() == c,
            forall|x: int| 0 <= x < c ==> cell_table_ok(#[trigger] t@[x], x),
        decreases 9 - c,
    {
        t.push(capture_subsets_of(c));
        c = c + 1;
    }
    t
}

/// One board of the search, paired with the number of placement histories
/// that produced it, kept modulo 2^30 (only that residue can influence the
/// final checksum).
#[derive(Clone, Copy)]
pub struct State {
    tiles: [u8; 9],
    cnt: u32,
}

impl State {
    /// The nine tile values.
    pub closed spec fn board(&self) -> Seq<u8> {
        self.tiles@
    }

    /// The history count (reduced modulo 2^30).
    pub closed spec fn mult(&self) -> nat {
        self.cnt as nat
    }

    /// A valid state: a well-formed board and a reduced history count.
    pub closed spec fn wf(&self) -> bool {
        &&& board_wf(self.tiles@)
        &&& self.cnt < HASHMOD
    }

    /// Validate the nine tiles and build a single-history state from them.
    /// Returns `None` exactly when some tile value is above 6.
    pub fn new(tiles: [u8; 9]) -> (r: Option<State>)
        ensures
            match r {
                Some(s) => board_wf(tiles@) && s.wf() && s.board() == tiles@ && s.mult() == 1,
                None => !board_wf(tiles@),
            },
    {
        let mut i: usize = 0;
        while i < 9
            invariant
                i <= 9,
                forall|j: int| 0 <= j < i ==> tiles@[j] <= 6,
            decreases 9 - i,
        {
            if tiles[i] > 6 {
                return None;
            }
            i = i + 1;
        }
        Some(State { tiles, cnt: 1 })
    }

    /// Copy of the nine tile values.
    pub fn tiles(&self) -> (r: [u8; 9])
        ensures
            r@ == self.board(),
    {
        self.tiles
    }

    /// True exactly when no cell of the board is empty.
    pub fn is_terminal(&self) -> (r: bool)
        requires
            self.board().len() == 9,
        ensures
            r == spec_is_terminal(self.board()),
    {
        let mut i: usize = 0;
        while i < 9
            invariant
                i <= 9,
                self.board().len() == 9,
                forall|j: int| 0 <= j < i ==> self.board()[j] != 0,
            decreases 9 - i,
        {
            if self.tiles[i] == 0 {
                return false;
            }
            i = i + 1;
        }
        true
    }

    /// Attempt the capture of the neighbour subset `ngbs` into the cell
    /// `placement`: succeeds exactly when every named neighbour is filled
    /// and their values sum to at most 6.
    pub fn try_capture(&self, placement: usize, ngbs: &[usize]) -> (r: Option<State>)
        requires
            self.wf(),
            placement < 9,
            cells_ok(ngbs@),
        ensures
            match r {
                Some(s) => {
                    &&& spec_try_capture(self.board(), placement as int, ngbs@) == Some(s.board())
                    &&& s.wf()
                    &&& s.mult() == self.mult()
                },
                None => spec_try_capture(self.board(), placement as int, ngbs@) is None,
            },
    {
        let ghost b = self.board();
        let mut ttl: u8 = 0;
        let mut i: usize = 0;
        while i < ngbs.len()
            invariant
                self.wf(),
                placement < 9,
                cells_ok(ngbs@),
                b == self.board(),
                i <= ngbs@.len(),
                ttl as int == subset_sum(b, ngbs@.take(i as int)),
                subset_filled(b, ngbs@.take(i as int)),
                ttl <= 6,
            decreases ngbs@.len() - i,
        {
            let n = ngbs[i];
            let v = self.tiles[n];
            if v == 0 {
                assert(!subset_filled(b, ngbs@));
                return None;
            }
            proof {
                assert(ngbs@.take(i + 1).drop_last() =~= ngbs@.take(i as int));
                assert(ngbs@.take(i + 1).last() == ngbs@[i as int]);
            }
            ttl = ttl + v;
            if ttl > 6 {
                proof {
                    lemma_subset_sum_prefix(b, ngbs@, i + 1);
                }
                return None;
            }
            i = i + 1;
        }
        proof {
            assert(ngbs@.take(ngbs@.len() as int) =~= ngbs@);
        }
        let mut new = *self;
        new.tiles[placement] = ttl;
        let mut j: usize = 0;
        while j < ngbs.len()
            invariant
                placement < 9,
                cells_ok(ngbs@),
                j <= ngbs@.len(),
                new.tiles@.len() == 9,
                new.cnt == self.cnt,
                forall|k: int|
                    0 <= k < 9 ==> new.tiles@[k] == (if ngbs@.take(j as int).contains(k as usize) {
                        0u8
                    } else if k == placement as int {
                        ttl
                    } else {
                        b[k]
                    }),
            decreases ngbs@.len() - j,
        {
            let ghost prev = new.tiles@;
            new.tiles[ngbs[j]] = 0;
            proof {
                let s1 = ngbs@.take(j as int);
                let s2 = ngbs@.take(j + 1);
                assert(s2 =~= s1.push(ngbs@[j as int]));
                assert(s2[j as int] == ngbs@[j as int]);
                assert(s2.contains(ngbs@[j as int]));
                assert forall|k: int| 0 <= k < 9 implies new.tiles@[k] == (if s2.contains(
                    k as usize,
                ) {
                    0u8
                } else if k == placement as int {
                    ttl
                } else {
                    b[k]
                }) by {
                    if s2.contains(k as usize) {
                        if k != ngbs@[j as int] as int {
                            let idx = choose|idx: int|
                                0 <= idx < s2.len() && s2[idx] == k as usize;
                            assert(s1[idx] == k as usize);
                            assert(s1.contains(k as usize));
                        }
                    } else {
                        assert(!s1.contains(k as usize)) by {
                            if s1.contains(k as usize) {
                                let idx = choose|idx: int|
                                    0 <= idx < s1.len() && s1[idx] == k as usize;
                                assert(s2[idx] == k as usize);
                            }
                        }
                        assert(k != ngbs@[j as int] as int);
                    }
                }
            }
            j = j + 1;
        }
        proof {
            assert(ngbs@.take(ngbs@.len() as int) =~= ngbs@);
            assert(new.tiles@ =~= capture_board(b, placement as int, ngbs@));
        }
        Some(new)
    }

    /// Fill `results` with the successors of one placement on `placement`,
    /// reusing a prebuilt capture-subset table for that cell.
    fn next_states_into(&self, placement: usize, subsets: &Vec<Vec<usize>>, results: &mut Vec<
        State,
    >)
        requires
            self.wf(),
            placement < 9,
            subsets@.len() == capture_subsets(placement as int).len(),
            forall|i: int|
                0 <= i < subsets@.len() ==> (#[trigger] subsets@[i])@ == capture_subsets(
                    placement as int,
                )[i],
            forall|i: int| 0 <= i < subsets@.len() ==> cells_ok((#[trigger] subsets@[i])@),
        ensures
            final(results)@.len() == spec_next_states(self.board(), placement as int).len(),
            forall|i: int|
                0 <= i < final(results)@.len() ==> {
                    &&& (#[trigger] final(results)@[i]).board() == spec_next_states(
                        self.board(),
                        placement as int,
                    )[i]
                    &&& final(results)@[i].wf()
                    &&& final(results)@[i].mult() == self.mult()
                },
    {
        results.clear();
        let ghost b = self.board();
        let ghost cell = placement as int;
        let mut k: usize = 0;
        while k < subsets.len()
            invariant
                self.wf(),
                placement < 9,
                b == self.board(),
                cell == placement as int,
                subsets@.len() == capture_subsets(cell).len(),
                forall|i: int|
                    0 <= i < subsets@.len() ==> (#[trigger] subsets@[i])@ == capture_subsets(
                        cell,
                    )[i],
                forall|i: int| 0 <= i < subsets@.len() ==> cells_ok((#[trigger] subsets@[i])@),
                k <= subsets@.len(),
                results@.len() == captures_upto(b, cell, k as int).len(),
                forall|i: int|
                    0 <= i < results@.len() ==> {
                        &&& (#[trigger] results@[i]).board() == captures_upto(b, cell, k as int)[i]
                        &&& results@[i].wf()
                        &&& results@[i].mult() == self.mult()
                    },
            decreases subsets@.len() - k,
        {
            let sub: &Vec<usize> = &subsets[k];
            match self.try_capture(placement, sub.as_slice()) {
                Some(s) => {
                    results.push(s);
                },
                None => {},
            }
            k = k + 1;
        }
        if results.len() == 0 {
            let mut s = *self;
            s.tiles[placement] = 1;
            proof {
                assert(s.tiles@ =~= b.update(cell, 1u8));
            }
            results.push(s);
        }
    }

    /// Fill `results` with every successor board of one placement on the
    /// cell `placement`: one board per valid capture subset, in table
    /// order, or the single board that places a 1 when none qualifies.
    /// Every successor keeps this state's history count.
    pub fn next_states(&self, placement: usize, results: &mut Vec<State>)
        requires
            self.wf(),
            placement < 9,
        ensures
            final(results)@.len() == spec_next_states(self.board(), placement as int).len(),
            forall|i: int|
                0 <= i < final(results)@.len() ==> {
                    &&& (#[trigger] final(results)@[i]).board() == spec_next_states(
                        self.board(),
                        placement as int,
                    )[i]
                    &&& final(results)@[i].wf()
                    &&& final(results)@[i].mult() == self.mult()
                },
    {
        let subsets = capture_subsets_of(placement);
        self.next_states_into(placement, &subsets, results);
    }

    /// The positional base-10 hash of the board.
    pub fn hash(&self) -> (h: u32)
        requires
            board_wf(self.board()),
        ensures
            h == board_code(self.board()),
            h < HASHMOD,
    {
        proof {
            lemma_code_bound(self.tiles@);
            reveal_with_fuel(pow10, 10);
        }
        let mut h: u32 = 0;
        let mut i: usize = 0;
        while i < 9
            invariant
                i <= 9,
                board_wf(self.tiles@),
                h == board_code(self.tiles@.take(i as int)),
                0 <= h < pow10(i as nat),
                pow10(8) == 100_000_000,
                forall|n: nat| n < 9 ==> #[trigger] pow10(n) <= pow10(8),
            decreases 9 - i,
        {
            proof {
                assert(self.tiles@.take(i + 1).drop_last() =~= self.tiles@.take(i as int));
                assert(self.tiles@.take(i + 1).last() == self.tiles@[i as int]);
            }
            h = h * 10 + (self.tiles[i] as u32);
            proof {
                lemma_code_bound(self.tiles@.take(i + 1));
            }
            i = i + 1;
        }
        proof {
            assert(self.tiles@.take(9) =~= self.tiles@);
        }
        h
    }

    /// The board's hash multiplied by the history count, modulo 2^30: this
    /// state's contribution to the checksum, starting from zero.
    pub fn weighted_hash(&self) -> (r: u32)
        requires
            self.wf(),
        ensures
            r as int == fold_entry(0, self.mult(), board_code(self.board())),
            r < HASHMOD,
    {
        let h = self.hash();
        proof {
            assert((self.cnt as int) * (h as int) < 0x1000_0000_0000_0000) by (nonlinear_arith)
                requires
                    self.cnt < 0x4000_0000,
                    h < 0x4000_0000,
            ;
            lemma_mod_bound((self.cnt as int) * (h as int), HASHMOD as int);
        }
        (((self.cnt as u64) * (h as u64)) % (HASHMOD as u64)) as u32
    }

    /// Depth-zero shortcut of the search: the state's own contribution when
    /// no expansion is allowed, zero otherwise.
    pub fn solve2(&self, depth: u32) -> (r: u32)
        requires
            self.wf(),
        ensures
            depth == 0 ==> r as int == fold_entry(0, self.mult(), board_code(self.board())),
            depth != 0 ==> r == 0,
    {
        if depth == 0 {
            self.weighted_hash()
        } else {
            0
        }
    }

    /// Run the whole search from this state: expand every placement
    /// history for up to `depth` levels, deduplicating boards per level
    /// while summing their history counts, and return the checksum of all
    /// terminal and depth-bounded boards, modulo 2^30.
    pub fn solve(&self, depth: u32) -> (r: u32)
        requires
            self.wf(),
        ensures
            r as int == spec_run(seq![(self.board(), self.mult())], depth as nat, 0),
            self.mult() == 1 ==> r as int == spec_solve(self.board(), depth as nat),
            r < HASHMOD,
    {
        let ghost f0: SpecFrontier = seq![(self.board(), self.mult())];
        let table = full_table();
        let mut current: Vec<State> = Vec::new();
        current.push(*self);
        let ghost mut gf: SpecFrontier = f0;
        let mut acc: u32 = 0;
        let mut d: u32 = 0;
        proof {
            lemma_small_mod(self.mult(), HASHMOD as nat);
            assert(frontier_rel(current@, gf));
        }
        while d < depth && current.len() > 0
            invariant
                d <= depth,
                acc < HASHMOD,
                table@.len() == 9,
                forall|c: int| 0 <= c < 9 ==> cell_table_ok(#[trigger] table@[c], c),
                frontier_rel(current@, gf),
                spec_run(f0, depth as nat, 0) == spec_run(gf, (depth - d) as nat, acc as int),
            decreases depth - d,
        {
            let ghost acc0 = acc as int;
            let ghost gcur = gf;
            let mut next: Vec<State> = Vec::new();
            let mut index: HashMap<u64, usize> = HashMap::new();
            let ghost mut gnext: SpecFrontier = Seq::empty();
            let mut buf: Vec<State> = Vec::new();
            proof {
                assert(gcur.take(0) =~= Seq::<(Seq<u8>, nat)>::empty());
            }
            let mut k: usize = 0;
            while k < current.len()
                invariant
                    table@.len() == 9,
                    forall|c: int| 0 <= c < 9 ==> cell_table_ok(#[trigger] table@[c], c),
                    frontier_rel(current@, gcur),
                    k <= gcur.len(),
                    frontier_rel(next@, gnext),
                    index_inv(index@, gnext),
                    frontier_distinct(gnext),
                    gnext == level_next(gcur.take(k as int)),
                    acc < HASHMOD,
                    acc as int == level_fold(gcur.take(k as int), acc0),
                decreases current@.len() - k,
            {
                let s = current[k];
                let ghost b = s.board();
                let ghost gm = gcur[k as int].1;
                let ghost gpre = gnext;
                let mut is_finished = true;
                let mut i: usize = 0;
                proof {
                    assert(successors_upto(b, 0) =~= Seq::<Seq<u8>>::empty());
                }
                while i < 9
                    invariant
                        table@.len() == 9,
                        forall|c: int| 0 <= c < 9 ==> cell_table_ok(#[trigger] table@[c], c),
                        s.wf(),
                        b == s.board(),
                        s.mult() == gm % (HASHMOD as nat),
                        i <= 9,
                        frontier_rel(next@, gnext),
                        index_inv(index@, gnext),
                        frontier_distinct(gnext),
                        gnext == merge_all(gpre, successors_upto(b, i as int), gm),
                        is_finished == (forall|j: int| 0 <= j < i ==> b[j] != 0),
                    decreases 9 - i,
                {
                    if s.tiles[i] != 0 {
                        proof {
                            assert(successors_upto(b, i + 1) =~= successors_upto(b, i as int));
                        }
                        i = i + 1;
                        continue;
                    }
                    is_finished = false;
                    s.next_states_into(i, &table[i], &mut buf);
                    let ghost gcell = gnext;
                    let ghost sns = spec_next_states(b, i as int);
                    let mut t: usize = 0;
                    proof {
                        assert(sns.take(0) =~= Seq::<Seq<u8>>::empty());
                    }
                    while t < buf.len()
                        invariant
                            s.wf(),
                            b == s.board(),
                            s.mult() == gm % (HASHMOD as nat),
                            i < 9,
                            sns == spec_next_states(b, i as int),
                            buf@.len() == sns.len(),
                            forall|x: int|
                                0 <= x < buf@.len() ==> {
                                    &&& (#[trigger] buf@[x]).board() == sns[x]
                                    &&& buf@[x].wf()
                                    &&& buf@[x].mult() == s.mult()
                                },
                            t <= buf@.len(),
                            frontier_rel(next@, gnext),
                            index_inv(index@, gnext),
                            frontier_distinct(gnext),
                            gnext == merge_all(gcell, sns.take(t as int), gm),
                        decreases buf@.len() - t,
                    {
                        let sc = buf[t];
                        proof {
                            assert(sns.take(t + 1).drop_last() =~= sns.take(t as int));
                            assert(sns.take(t + 1).last() == sns[t as int]);
                        }
                        merge_into(&mut next, &mut index, sc, Ghost(gm), Ghost(gnext));
                        proof {
                            gnext = merge_one(gnext, sc.board(), gm);
                        }
                        t = t + 1;
                    }
                    proof {
                        assert(sns.take(sns.len() as int) =~= sns);
                        lemma_merge_all_append(gpre, successors_upto(b, i as int), sns, gm);
                        assert(successors_upto(b, i + 1) == successors_upto(b, i as int) + sns);
                    }
                    i = i + 1;
                }
                proof {
                    assert(gcur.take(k + 1).drop_last() =~= gcur.take(k as int));
                    assert(gcur.take(k + 1).last() == gcur[k as int]);
                }
                if is_finished {
                    proof {
                        assert(spec_is_terminal(b));
                        lemma_successors_terminal(b, 9);
                        assert(gnext == gpre);
                    }
                    acc = fold_step(acc, &s, Ghost(gm));
                } else {
                    proof {
                        assert(b.len() == 9 && !spec_is_terminal(b));
                        assert(gnext == expand_entry(gpre, b, gm));
                    }
                }
                k = k + 1;
            }
            proof {
                assert(gcur.take(current@.len() as int) =~= gcur);
                gf = gnext;
            }
            current = next;
            d = d + 1;
        }
        let ghost accl = acc as int;
        let mut k: usize = 0;
        proof {
            assert(gf.take(0) =~= Seq::<(Seq<u8>, nat)>::empty());
        }
        while k < current.len()
            invariant
                frontier_rel(current@, gf),
                k <= gf.len(),
                acc < HASHMOD,
                acc as int == final_fold(gf.take(k as int), accl),
            decreases current@.len() - k,
        {
            let s = current[k];
            proof {
                assert(gf.take(k + 1).drop_last() =~= gf.take(k as int));
                assert(gf.take(k + 1).last() == gf[k as int]);
            }
            acc = fold_step(acc, &s, Ghost(gf[k as int].1));
            k = k + 1;
        }
        proof {
            assert(gf.take(current@.len() as int) =~= gf);
            assert(self.mult() == 1 ==> f0 =~= seq![(self.board(), 1nat)]);
        }
        acc
    }

}

/// With a depth bound of zero no expansion occurs: the search folds the
/// unexpanded initial board straight into the checksum, so the result is
/// the board's hash modulo 2^30.
pub proof fn lemma_solve_depth_zero(b: Seq<u8>)
    ensures
        spec_solve(b, 0) == board_code(b) % (HASHMOD as int),
{
    let e = Seq::<(Seq<u8>, nat)>::empty();
    let f: SpecFrontier = seq![(b, 1nat)];
    assert(f.drop_last() =~= e);
    assert(final_fold(e, 0) == 0);
    assert(f.last() == (b, 1nat));
    assert(final_fold(f, 0) == fold_entry(0, 1nat, board_code(b)));
    assert(fold_entry(0, 1nat, board_code(b)) == board_code(b) % (HASHMOD as int));
}

/// A board with no empty cell is terminal from the start: whatever the
/// depth bound, the search returns the board's own hash modulo 2^30.
pub proof fn lemma_solve_terminal(b: Seq<u8>, depth: nat)
    requires
        spec_is_terminal(b),
    ensures
        spec_solve(b, depth) == board_code(b) % (HASHMOD as int),
{
    let e = Seq::<(Seq<u8>, nat)>::empty();
    let f: SpecFrontier = seq![(b, 1nat)];
    assert(f.drop_last() =~= e);
    assert(f.last() == (b, 1nat));
    assert(fold_entry(0, 1nat, board_code(b)) == board_code(b) % (HASHMOD as int));
    if depth == 0 {
        assert(final_fold(e, 0) == 0);
        assert(final_fold(f, 0) == fold_entry(0, 1nat, board_code(b)));
    } else {
        assert(level_next(e) == e);
        assert(level_next(f) == e);
        assert(level_fold(e, 0) == 0);
        assert(level_fold(f, 0) == fold_entry(0, 1nat, board_code(b)));
        assert(spec_run(e, (depth - 1) as nat, level_fold(f, 0)) == final_fold(
            e,
            level_fold(f, 0),
        ));
        assert(final_fold(e, level_fold(f, 0)) == level_fold(f, 0));
    }
}

/// Adding a board's hash to the accumulator one history at a time, with a
/// reduction modulo 2^30 after every addition, gives exactly the single
/// reduced product `(acc + m * h) % 2^30`: the two forms of the checksum
/// update are interchangeable.
pub open spec fn repeated_fold(acc: int, m: nat, h: int) -> int
    decreases m,
{
    if m == 0 {
        acc
    } else {
        (repeated_fold(acc, (m - 1) as nat, h) + h) % (HASHMOD as int)
    }
}

/// The repeated-addition checksum update equals the single modular
/// multiply-and-add that `fold_entry` performs.
pub proof fn lemma_repeated_fold(acc: int, m: nat, h: int)
    requires
        0 <= acc < HASHMOD as int,
        0 <= h < HASHMOD as int,
        m > 0,
    ensures
        repeated_fold(acc, m, h) == fold_entry(acc, m, h),
    decreases m,
{
    let mi = HASHMOD as int;
    if m == 1 {
        assert(repeated_fold(acc, 0nat, h) == acc);
        assert(repeated_fold(acc, 1nat, h) == (acc + h) % mi);
        assert(1nat * h == h) by (nonlinear_arith);
    } else {
        let m1 = (m - 1) as nat;
        lemma_repeated_fold(acc, m1, h);
        let x = acc + m1 * h;
        assert(repeated_fold(acc, m, h) == (x % mi + h) % mi);
        lemma_small_mod(h as nat, HASHMOD as nat);
        lemma_add_mod_noop(x, h, mi);
        assert((x % mi + h) % mi == (x + h) % mi);
        assert(x + h == acc + m * h) by (nonlinear_arith)
            requires
                x == acc + m1 * h,
                m1 == m - 1,
        ;
    }
}

/// The total number of histories represented by a frontier.
pub open spec fn sum_mults(f: SpecFrontier) -> nat
    decreases f.len(),
{
    if f.len() == 0 {
        0
    } else {
        sum_mults(f.drop_last()) + f.last().1
    }
}

/// How many successors one frontier entry contributes to the next level:
/// none for a terminal board, one per successor board otherwise.
pub open spec fn succ_count(b: Seq<u8>) -> nat {
    if spec_is_terminal(b) {
        0
    } else {
        spec_successors(b).len()
    }
}

/// The number of histories a whole frontier passes to the next level:
/// each entry's history count times its successor count.
pub open spec fn weighted_succ_sum(f: SpecFrontier) -> nat
    decreases f.len(),
{
    if f.len() == 0 {
        0
    } else {
        weighted_succ_sum(f.drop_last()) + f.last().1 * succ_count(f.last().0)
    }
}

/// Raising one entry's count by `m` raises the frontier's history total by
/// exactly `m`.
proof fn lemma_sum_mults_update(f: SpecFrontier, i: int, m: nat)
    requires
        0 <= i < f.len(),
    ensures
        sum_mults(f.update(i, (f[i].0, (f[i].1 + m) as nat))) == sum_mults(f) + m,
    decreases f.len(),
{
    let g = f.update(i, (f[i].0, (f[i].1 + m) as nat));
    if i == f.len() - 1 {
        assert(g.drop_last() =~= f.drop_last());
    } else {
        assert(g.drop_last() =~= f.drop_last().update(i, (f[i].0, (f[i].1 + m) as nat)));
        assert(f.drop_last()[i] == f[i]);
        lemma_sum_mults_update(f.drop_last(), i, m);
        assert(g.last() == f.last());
    }
}

/// Merging one board with `m` histories adds exactly `m` to the
/// frontier's history total, whether the board was present or not.
proof fn lemma_merge_one_sum(f: SpecFrontier, b: Seq<u8>, m: nat)
    ensures
        sum_mults(merge_one(f, b, m)) == sum_mults(f) + m,
{
    lemma_find_board_props(f, b);
    let i = find_board(f, b);
    if i >= 0 {
        assert(f.update(i, (b, (f[i].1 + m) as nat)) == f.update(
            i,
            (f[i].0, (f[i].1 + m) as nat),
        ));
        lemma_sum_mults_update(f, i, m);
    } else {
        assert(f.push((b, m)).drop_last() =~= f);
    }
}

/// Merging a batch of boards, each with `m` histories, adds `m` per board
/// to the frontier's history total.
proof fn lemma_merge_all_sum(f: SpecFrontier, bs: Seq<Seq<u8>>, m: nat)
    ensures
        sum_mults(merge_all(f, bs, m)) == sum_mults(f) + bs.len() * m,
    decreases bs.len(),
{
    if bs.len() == 0 {
        assert(bs.len() * m == 0) by (nonlinear_arith)
            requires
                bs.len() == 0,
        ;
    } else {
        lemma_merge_all_sum(f, bs.drop_last(), m);
        lemma_merge_one_sum(merge_all(f, bs.drop_last(), m), bs.last(), m);
        assert((bs.len() - 1) * m + m == bs.len() * m) by (nonlinear_arith);
    }
}

/// Multiplicity conservation: the history total of the next level's
/// frontier equals the sum, over the current frontier, of each entry's
/// history count times the number of successors it generates. No history
/// is dropped or double-counted by the per-level merge.
pub proof fn lemma_multiplicity_conservation(f: SpecFrontier)
    ensures
        sum_mults(level_next(f)) == weighted_succ_sum(f),
    decreases f.len(),
{
    if f.len() > 0 {
        lemma_multiplicity_conservation(f.drop_last());
        let prev = level_next(f.drop_last());
        let e = f.last();
        if spec_is_terminal(e.0) {
            assert(e.1 * succ_count(e.0) == 0) by (nonlinear_arith)
                requires
                    succ_count(e.0) == 0,
            ;
        } else {
            lemma_merge_all_sum(prev, spec_successors(e.0), e.1);
            assert(spec_successors(e.0).len() * e.1 == e.1 * succ_count(e.0)) by (nonlinear_arith)
                requires
                    succ_count(e.0) == spec_successors(e.0).len(),
            ;
        }
    }
}

/// The engine's outward face: validate the nine tiles, then run the
/// bounded search and return its checksum, a value below 2^30. Returns
/// nothing exactly when some tile value is above 6.
pub fn solve(initial_board: [u8; 9], depth_bound: u32) -> (r: Option<u32>)
    ensures
        match r {
            Some(v) => board_wf(initial_board@) && v as int == spec_solve(
                initial_board@,
                depth_bound as nat,
            ) && v < HASHMOD,
            None => !board_wf(initial_board@),
        },
{
    match State::new(initial_board) {
        Some(state) => Some(state.solve(depth_bound)),
        None => None,
    }
}

/// The board hash as the 64-bit deduplication key of the frontier index.
pub open spec fn code_u64(b: Seq<u8>) -> u64 {
    board_code(b) as u64
}

/// The executable frontier mirrors the ghost one entry for entry: same
/// boards in the same order, every state well formed, and every stored
/// count equal to the true history count reduced modulo 2^30.
pub open spec fn frontier_rel(v: Seq<State>, g: SpecFrontier) -> bool {
    &&& v.len() == g.len()
    &&& forall|i: int|
        0 <= i < g.len() ==> {
            &&& (#[trigger] v[i]).board() == g[i].0
            &&& v[i].mult() == g[i].1 % (HASHMOD as nat)
            &&& v[i].wf()
        }
}

/// The deduplication index maps exactly the hashes of the frontier's
/// boards, each to the position of its board.
pub open spec fn index_inv(m: Map<u64, usize>, g: SpecFrontier) -> bool {
    &&& forall|i: int|
        0 <= i < g.len() ==> {
            &&& m.contains_key(code_u64((#[trigger] g[i]).0))
            &&& m[code_u64(g[i].0)] as int == i
        }
    &&& forall|c: u64|
        #[trigger] m.contains_key(c) ==> m[c] < g.len() && code_u64(g[m[c] as int].0) == c
}

/// Add one checksum contribution: the state's hash, `gm` times, modulo
/// 2^30. The stored count is the true count `gm` reduced modulo 2^30,
/// which leaves the contribution unchanged.
fn fold_step(acc: u32, s: &State, Ghost(gm): Ghost<nat>) -> (r: u32)
    requires
        acc < HASHMOD,
        s.wf(),
        s.mult() == gm % (HASHMOD as nat),
    ensures
        r as int == fold_entry(acc as int, gm, board_code(s.board())),
        r < HASHMOD,
{
    let h = s.hash();
    let m64: u64 = HASHMOD as u64;
    proof {
        assert((s.cnt as int) * (h as int) < 0x1000_0000_0000_0000) by (nonlinear_arith)
            requires
                s.cnt < 0x4000_0000,
                h < 0x4000_0000,
        ;
    }
    let prod: u64 = ((s.cnt as u64) * (h as u64)) % m64;
    let r = (((acc as u64) + prod) % m64) as u32;
    proof {
        let mi = HASHMOD as int;
        let hc = board_code(s.board());
        lemma_mul_mod_noop_left(gm as int, hc, mi);
        lemma_add_mod_noop_right(acc as int, (gm as int) * hc, mi);
        lemma_mod_bound(acc as int + ((gm as int) * hc) % mi, mi);
    }
    r
}

/// Merge one successor state, produced by `gm` true histories, into the
/// frontier being built, adding to the count of an already-present board
/// or appending a new entry, and keep the index in step.
fn merge_into(
    next: &mut Vec<State>,
    index: &mut HashMap<u64, usize>,
    s: State,
    Ghost(gm): Ghost<nat>,
    Ghost(g): Ghost<SpecFrontier>,
)
    requires
        frontier_rel(old(next)@, g),
        index_inv(old(index)@, g),
        frontier_distinct(g),
        s.wf(),
        s.mult() == gm % (HASHMOD as nat),
    ensures
        frontier_rel(final(next)@, merge_one(g, s.board(), gm)),
        index_inv(final(index)@, merge_one(g, s.board(), gm)),
        frontier_distinct(merge_one(g, s.board(), gm)),
{
    let ghost b = s.board();
    let ghost g2 = merge_one(g, b, gm);
    proof {
        lemma_find_board_props(g, b);
        lemma_merge_one_distinct(g, b, gm);
        reveal_with_fuel(pow10, 10);
    }
    let h = s.hash();
    let c: u64 = h as u64;
    let found: Option<usize> = match index.get(&c) {
        Some(j) => Some(*j),
        None => None,
    };
    match found {
        Some(j) => {
            proof {
                assert(old(index)@.contains_key(c));
                assert(old(index)@[c] == j);
                assert(j < g.len() && code_u64(g[j as int].0) == c);
                let bj = g[j as int].0;
                assert(old(next)@[j as int].board() == bj && old(next)@[j as int].wf());
                assert(board_wf(bj));
                lemma_code_bound(bj);
                lemma_code_bound(b);
                assert(board_code(bj) < pow10(9) && board_code(b) < pow10(9));
                assert(board_code(bj) == board_code(b));
                lemma_code_injective(bj, b);
                lemma_find_board_at(g, b, j as int);
            }
            let mut e = next[j];
            proof {
                lemma_add_mod_noop(g[j as int].1 as int, gm as int, HASHMOD as int);
                lemma_mod_bound(g[j as int].1 as int + gm as int, HASHMOD as int);
            }
            e.cnt = (e.cnt + s.cnt) % HASHMOD;
            next.set(j, e);
            proof {
                assert(frontier_rel(next@, g2));
                assert(index_inv(index@, g2)) by {
                    assert(forall|i: int| 0 <= i < g2.len() ==> (#[trigger] g2[i]).0 == g[i].0);
                }
            }
        },
        None => {
            proof {
                assert forall|j: int| 0 <= j < g.len() implies (#[trigger] g[j]).0 != b by {
                    if g[j].0 == b {
                        assert(index@.contains_key(code_u64(g[j].0)));
                        lemma_code_bound(b);
                    }
                }
                assert(find_board(g, b) == -1);
            }
            let n = next.len();
            index.insert(c, n);
            next.push(s);
            proof {
                lemma_code_bound(b);
                assert(g2 == g.push((b, gm)));
                assert(frontier_rel(next@, g2));
                assert(index_inv(index@, g2)) by {
                    assert forall|cc: u64| #[trigger] index@.contains_key(cc) implies index@[cc]
                        < g2.len() && code_u64(g2[index@[cc] as int].0) == cc by {
                        if cc != c {
                            assert(old(index)@.contains_key(cc));
                        }
                    }
                }
            }
        },
    }
}

} // verus!

