//! The board: a square grid of tiles, moved as a set of independent lanes.
use vstd::prelude::*;
use crate::lanes::{
    lane_count, lane_result, lane_width, merge_count, merge_pass, merge_lane, compact_lane,
    nz_count, mergeable, cell_max, lemma_cell_max, lemma_lane_result_bound, lemma_nz_seq_push,
    lemma_lane_fixpoint, lemma_merge_from_props, lemma_compact_props,
    lemma_nz_bounds,
};

verus! {

/// A direction a move can take.
#[derive(Clone, Copy, PartialEq, Eq, Structural, Debug)]
pub enum Move {
    Up,
    Down,
    Left,
    Right,
}

/// Board index of the `j`-th cell of lane `l`, in the scan order that the
/// direction dictates: rows for Left/Right, columns for Up/Down, reversed
/// for Right and Down.
pub open spec fn lane_idx(size: nat, dir: Move, l: int, j: int) -> int {
    match dir {
        Move::Left => l * size + j,
        Move::Right => l * size + (size - 1 - j),
        Move::Up => j * size + l,
        Move::Down => (size - 1 - j) * size + l,
    }
}

/// Which lane the board cell `i` belongs to for the given direction.
pub open spec fn lane_of(size: nat, dir: Move, i: int) -> int {
    match dir {
        Move::Left | Move::Right => i / (size as int),
        Move::Up | Move::Down => i % (size as int),
    }
}

/// The position of board cell `i` within its lane's scan order.
pub open spec fn pos_of(size: nat, dir: Move, i: int) -> int {
    match dir {
        Move::Left => i % (size as int),
        Move::Right => size - 1 - i % (size as int),
        Move::Up => i / (size as int),
        Move::Down => size - 1 - i / (size as int),
    }
}

/// The values of lane `l` read in scan order.
pub open spec fn lane_seq(b: Seq<u32>, size: nat, dir: Move, l: int) -> Seq<u32> {
    Seq::new(size, |j: int| b[lane_idx(size, dir, l, j)])
}

/// A lane cell's index is in range, and `lane_of` / `pos_of` recover the
/// lane and the position it was built from.
pub proof fn lemma_lane_idx(size: nat, dir: Move, l: int, j: int)
    requires
        1 <= size,
        0 <= l < size,
        0 <= j < size,
    ensures
        0 <= lane_idx(size, dir, l, j) < size * size,
        lane_of(size, dir, lane_idx(size, dir, l, j)) == l,
        pos_of(size, dir, lane_idx(size, dir, l, j)) == j,
{
    let s = size as int;
    assert(0 <= l * s + j < s * s && 0 <= l * s + (s - 1 - j) < s * s && 0 <= j * s + l < s * s
        && 0 <= (s - 1 - j) * s + l < s * s) by (nonlinear_arith)
        requires
            1 <= s,
            0 <= l < s,
            0 <= j < s,
    ;
    match dir {
        Move::Left => {
            vstd::arithmetic::div_mod::lemma_fundamental_div_mod_converse_div(l * s + j, s, l, j);
            vstd::arithmetic::div_mod::lemma_fundamental_div_mod_converse_mod(l * s + j, s, l, j);
        },
        Move::Right => {
            vstd::arithmetic::div_mod::lemma_fundamental_div_mod_converse_div(
                l * s + (s - 1 - j),
                s,
                l,
                s - 1 - j,
            );
            vstd::arithmetic::div_mod::lemma_fundamental_div_mod_converse_mod(
                l * s + (s - 1 - j),
                s,
                l,
                s - 1 - j,
            );
        },
        Move::Up => {
            vstd::arithmetic::div_mod::lemma_fundamental_div_mod_converse_div(j * s + l, s, j, l);
            vstd::arithmetic::div_mod::lemma_fundamental_div_mod_converse_mod(j * s + l, s, j, l);
        },
        Move::Down => {
            vstd::arithmetic::div_mod::lemma_fundamental_div_mod_converse_div(
                (s - 1 - j) * s + l,
                s,
                s - 1 - j,
                l,
            );
            vstd::arithmetic::div_mod::lemma_fundamental_div_mod_converse_mod(
                (s - 1 - j) * s + l,
                s,
                s - 1 - j,
                l,
            );
        },
    }
}

/// Every board cell lies in exactly one lane: `lane_idx` inverts
/// `lane_of` / `pos_of`.
pub proof fn lemma_idx_lane(size: nat, dir: Move, i: int)
    requires
        1 <= size,
        0 <= i < size * size,
    ensures
        0 <= lane_of(size, dir, i) < size,
        0 <= pos_of(size, dir, i) < size,
        lane_idx(size, dir, lane_of(size, dir, i), pos_of(size, dir, i)) == i,
{
    let s = size as int;
    vstd::arithmetic::div_mod::lemma_fundamental_div_mod(i, s);
    vstd::arithmetic::div_mod::lemma_remainder_lower(i, s);
    vstd::arithmetic::div_mod::lemma_remainder_upper(i, s);
    vstd::arithmetic::div_mod::lemma_div_pos_is_pos(i, s);
    vstd::arithmetic::div_mod::lemma_multiply_divide_lt(i, s, s);
    assert(i == (i / s) * s + i % s);
    assert(s * (i / s) == (i / s) * s) by (nonlinear_arith);
}

/// Fallen tiles a move reports over the first `l` lanes.
pub open spec fn moves_upto(b: Seq<u32>, size: nat, dir: Move, l: int) -> nat
    decreases l,
{
    if l <= 0 {
        0
    } else {
        moves_upto(b, size, dir, l - 1) + lane_count(lane_seq(b, size, dir, l - 1))
    }
}

/// Largest digit width the merges of the first `l` lanes produce.
pub open spec fn width_upto(b: Seq<u32>, size: nat, dir: Move, l: int) -> nat
    decreases l,
{
    if l <= 0 {
        0
    } else {
        let w = width_upto(b, size, dir, l - 1);
        let lw = lane_width(lane_seq(b, size, dir, l - 1));
        if lw > w {
            lw
        } else {
            w
        }
    }
}

/// Fallen tiles a whole move reports.
pub open spec fn total_moves(b: Seq<u32>, size: nat, dir: Move) -> nat {
    moves_upto(b, size, dir, size as int)
}

/// Largest digit width a whole move produces.
pub open spec fn total_width(b: Seq<u32>, size: nat, dir: Move) -> nat {
    width_upto(b, size, dir, size as int)
}

/// Every cell of the board is small enough that a merge cannot overflow it.
pub open spec fn all_mergeable(b: Seq<u32>) -> bool {
    forall|i: int| 0 <= i < b.len() ==> b[i] <= 0x7fff_ffffu32
}

proof fn lemma_lane_seq_mergeable(b: Seq<u32>, size: nat, dir: Move, l: int)
    requires
        1 <= size,
        b.len() == size * size,
        all_mergeable(b),
        0 <= l < size,
    ensures
        mergeable(lane_seq(b, size, dir, l), 0),
        lane_seq(b, size, dir, l).len() == size,
{
    assert forall|j: int| 0 <= j < size implies lane_seq(b, size, dir, l)[j] <= 0x7fff_ffffu32 by {
        lemma_lane_idx(size, dir, l, j);
    }
}

/// Lane counters are bounded: at most two falls per cell in a lane.
proof fn lemma_moves_upto_bound(b: Seq<u32>, size: nat, dir: Move, l: int)
    requires
        1 <= size,
        b.len() == size * size,
        all_mergeable(b),
        0 <= l <= size,
    ensures
        moves_upto(b, size, dir, l) <= 2 * size * l,
        width_upto(b, size, dir, l) <= 10,
    decreases l,
{
    if l > 0 {
        lemma_moves_upto_bound(b, size, dir, l - 1);
        lemma_lane_seq_mergeable(b, size, dir, l - 1);
        let s = lane_seq(b, size, dir, l - 1);
        lemma_merge_from_props(s, 0);
        lemma_nz_bounds(s);
        lemma_nz_bounds(merge_pass(s));
        assert(merge_count(s) <= size);
        assert(lane_count(s) <= 2 * size);
        assert(2 * size * (l - 1) + 2 * size == 2 * size * l) by (nonlinear_arith);
    }
}

/// A move changed nothing on the board exactly when it reports no fallen
/// tile, lane by lane.
proof fn lemma_moves_zero_iff(b: Seq<u32>, size: nat, dir: Move, l: int)
    requires
        1 <= size,
        b.len() == size * size,
        all_mergeable(b),
        0 <= l <= size,
    ensures
        (moves_upto(b, size, dir, l) == 0) <==> (forall|ll: int|
            0 <= ll < l ==> lane_result(#[trigger] lane_seq(b, size, dir, ll)) == lane_seq(
                b,
                size,
                dir,
                ll,
            )),
    decreases l,
{
    if l > 0 {
        lemma_moves_zero_iff(b, size, dir, l - 1);
        lemma_lane_seq_mergeable(b, size, dir, l - 1);
        lemma_lane_fixpoint(lane_seq(b, size, dir, l - 1));
    }
}

/// Board index of the `j`-th cell of lane `l` in scan order.
fn lane_index(size: usize, dir: Move, l: usize, j: usize) -> (r: usize)
    requires
        1 <= size <= 46340,
        l < size,
        j < size,
    ensures
        r as int == lane_idx(size as nat, dir, l as int, j as int),
        r < size * size,
{
    proof {
        lemma_lane_idx(size as nat, dir, l as int, j as int);
        assert(size * size <= 2147395600) by (nonlinear_arith)
            requires
                size <= 46340,
        ;
    }
    match dir {
        Move::Left => l * size + j,
        Move::Right => l * size + (size - 1 - j),
        Move::Up => j * size + l,
        Move::Down => (size - 1 - j) * size + l,
    }
}

/// The game: a square board of tiles, the side length, and the print field
/// width that the largest merged value has demanded so far.
pub struct Game {
    pub board: Vec<u32>,
    pub size: usize,
    pub printwidth: usize,
}

impl Game {
    /// The board always holds size*size cells. The side is bounded so that
    /// cell indexing and the fallen-tile count stay within machine integers.
    pub open spec fn well_formed(self) -> bool {
        &&& 1 <= self.size <= 46340
        &&& self.board@.len() == self.size * self.size
        &&& 1 <= self.printwidth
    }

    /// Make a board of `size` x `size` cells, all empty.
    pub fn new(size: usize) -> (g: Game)
        requires
            1 <= size <= 46340,
        ensures
            g.well_formed(),
            g.size == size,
            g.printwidth == 1,
            forall|i: int| 0 <= i < g.board@.len() ==> g.board@[i] == 0,
    {
        proof {
            assert(size * size <= 46340 * 46340) by (nonlinear_arith)
                requires
                    size <= 46340,
            ;
        }
        let n = size * size;
        let mut board: Vec<u32> = Vec::new();
        while board.len() < n
            invariant
                board@.len() <= n,
                forall|i: int| 0 <= i < board@.len() ==> board@[i] == 0,
            decreases n - board@.len(),
        {
            board.push(0);
        }
        Game { board, size, printwidth: 1 }
    }

    /// Set every cell back to empty.
    pub fn reset(&mut self)
        ensures
            final(self).size == old(self).size,
            final(self).printwidth == old(self).printwidth,
            final(self).board@.len() == old(self).board@.len(),
            forall|i: int| 0 <= i < final(self).board@.len() ==> final(self).board@[i] == 0,
            old(self).well_formed() ==> final(self).well_formed(),
    {
        let n = self.board.len();
        let mut i: usize = 0;
        while i < n
            invariant
                n == self.board@.len(),
                self.size == old(self).size,
                self.printwidth == old(self).printwidth,
                i <= n,
                forall|k: int| 0 <= k < i ==> self.board@[k] == 0,
            decreases n - i,
        {
            self.board[i] = 0;
            i = i + 1;
        }
    }

    /// The indices of the empty cells, in row-major order. Together the
    /// empty cells and the tiles always account for every cell of the board.
    pub fn empty_squares(&self) -> (r: Vec<usize>)
        ensures
            forall|k: int|
                0 <= k < r@.len() ==> r@[k] < self.board@.len() && self.board@[r@[k] as int] == 0,
            forall|k1: int, k2: int| 0 <= k1 < k2 < r@.len() ==> r@[k1] < r@[k2],
            forall|i: int|
                0 <= i < self.board@.len() && self.board@[i] == 0 ==> exists|k: int|
                    0 <= k < r@.len() && r@[k] == i,
            r@.len() + nz_count(self.board@) == self.board@.len(),
    {
        let n = self.board.len();
        let mut r: Vec<usize> = Vec::new();
        let mut i: usize = 0;
        proof {
            assert(self.board@.take(0) =~= Seq::<u32>::empty());
        }
        while i < n
            invariant
                n == self.board@.len(),
                i <= n,
                forall|k: int|
                    0 <= k < r@.len() ==> r@[k] < i && self.board@[r@[k] as int] == 0,
                forall|k1: int, k2: int| 0 <= k1 < k2 < r@.len() ==> r@[k1] < r@[k2],
                forall|ii: int|
                    0 <= ii < i && self.board@[ii] == 0 ==> exists|k: int|
                        0 <= k < r@.len() && r@[k] == ii,
                r@.len() + nz_count(self.board@.take(i as int)) == i,
            decreases n - i,
        {
            proof {
                assert(self.board@.take(i as int + 1) =~= self.board@.take(i as int).push(
                    self.board@[i as int],
                ));
                lemma_nz_seq_push(self.board@.take(i as int), self.board@[i as int]);
            }
            let ghost r0 = r@;
            if self.board[i] == 0 {
                r.push(i);
                proof {
                    assert forall|ii: int|
                        0 <= ii < i + 1 && self.board@[ii] == 0 implies exists|k: int|
                        0 <= k < r@.len() && r@[k] == ii by {
                        if ii == i as int {
                            assert(r@[r0.len() as int] == i as int);
                        } else {
                            let k = choose|k: int| 0 <= k < r0.len() && r0[k] == ii;
                            assert(r@[k] == ii);
                        }
                    }
                }
            }
            i = i + 1;
        }
        proof {
            assert(self.board@.take(n as int) =~= self.board@);
        }
        r
    }

    /// The value of the cell in column `x`, row `y`.
    pub fn cell(&self, x: usize, y: usize) -> (r: u32)
        requires
            self.well_formed(),
            x < self.size,
            y < self.size,
        ensures
            r == self.board@[y * self.size + x],
    {
        proof {
            assert(y * self.size + x < self.size * self.size
                && y * self.size + x < 2147395600) by (nonlinear_arith)
                requires
                    x < self.size,
                    y < self.size,
                    self.size <= 46340,
            ;
        }
        self.board[y * self.size + x]
    }

    /// The current print field width.
    pub fn printwidth(&self) -> (r: usize)
        ensures
            r == self.printwidth,
    {
        self.printwidth
    }

    /// The largest tile value on the board, the end-of-game score.
    pub fn max_value(&self) -> (r: u32)
        requires
            self.well_formed(),
        ensures
            forall|i: int| 0 <= i < self.board@.len() ==> self.board@[i] <= r,
            exists|i: int| 0 <= i < self.board@.len() && self.board@[i] == r,
    {
        proof {
            assert(1 <= self.size * self.size) by (nonlinear_arith)
                requires
                    1 <= self.size,
            ;
        }
        let n = self.board.len();
        let mut m = self.board[0];
        let mut i: usize = 1;
        while i < n
            invariant
                n == self.board@.len(),
                1 <= i <= n,
                forall|k: int| 0 <= k < i ==> self.board@[k] <= m,
                exists|k: int| 0 <= k < i && self.board@[k] == m,
            decreases n - i,
        {
            if self.board[i] > m {
                m = self.board[i];
            }
            i = i + 1;
        }
        m
    }

    /// Process one move: run the merge pass and then the compact pass over
    /// every lane of the direction, in place. Returns how many tiles fell
    /// (merged or slid); 0 exactly when the board is unchanged, in which
    /// case the caller must not spawn a tile. The print width is raised to
    /// the widest merged value and never shrinks.
    pub fn process_move(&mut self, dir: Move) -> (fallen: u32)
        requires
            old(self).well_formed(),
            all_mergeable(old(self).board@),
        ensures
            final(self).well_formed(),
            final(self).size == old(self).size,
            final(self).board@.len() == old(self).board@.len(),
            forall|l: int, j: int|
                0 <= l < old(self).size && 0 <= j < old(self).size ==> final(self).board@[lane_idx(
                    old(self).size as nat,
                    dir,
                    l,
                    j,
                )] == lane_result(lane_seq(old(self).board@, old(self).size as nat, dir, l))[j],
            fallen as nat == total_moves(old(self).board@, old(self).size as nat, dir),
            old(self).printwidth <= final(self).printwidth,
            final(self).printwidth as nat == (if total_width(
                old(self).board@,
                old(self).size as nat,
                dir,
            ) > old(self).printwidth as nat {
                total_width(old(self).board@, old(self).size as nat, dir)
            } else {
                old(self).printwidth as nat
            }),
            (fallen == 0) <==> (final(self).board@ == old(self).board@),
            forall|i: int|
                0 <= i < final(self).board@.len() ==> final(self).board@[i] as int <= 2 * (cell_max(
                    old(self).board@,
                ) as int),
    {
        let size = self.size;
        let ghost orig = self.board@;
        let ghost szn = size as nat;
        let ghost opw = self.printwidth;
        let mut fallen: u32 = 0;
        let mut l: usize = 0;
        while l < size
            invariant
                orig == old(self).board@,
                size == old(self).size,
                opw == old(self).printwidth,
                self.size == size,
                1 <= size <= 46340,
                szn == size as nat,
                self.board@.len() == orig.len(),
                orig.len() == size * size,
                all_mergeable(orig),
                l <= size,
                forall|i: int|
                    0 <= i < orig.len() && lane_of(szn, dir, i) >= l ==> self.board@[i] == orig[i],
                forall|ll: int, j: int|
                    0 <= ll < l && 0 <= j < size ==> self.board@[lane_idx(szn, dir, ll, j)]
                        == lane_result(lane_seq(orig, szn, dir, ll))[j],
                fallen as nat == moves_upto(orig, szn, dir, l as int),
                self.printwidth as nat == (if width_upto(orig, szn, dir, l as int) > opw as nat {
                    width_upto(orig, szn, dir, l as int)
                } else {
                    opw as nat
                }),
                1 <= self.printwidth,
            decreases size - l,
        {
            let mut vals: Vec<u32> = Vec::new();
            let mut j: usize = 0;
            while j < size
                invariant
                    self.size == size,
                    1 <= size <= 46340,
                    szn == size as nat,
                    self.board@.len() == size * size,
                    l < size,
                    j <= size,
                    vals@.len() == j,
                    forall|jj: int|
                        0 <= jj < j ==> vals@[jj] == self.board@[lane_idx(szn, dir, l as int, jj)],
                decreases size - j,
            {
                let idx = lane_index(size, dir, l, j);
                vals.push(self.board[idx]);
                j = j + 1;
            }
            let ghost lseq = lane_seq(orig, szn, dir, l as int);
            proof {
                assert forall|jj: int| 0 <= jj < size implies vals@[jj] == lseq[jj] by {
                    lemma_lane_idx(szn, dir, l as int, jj);
                }
                assert(vals@ =~= lseq);
                lemma_lane_seq_mergeable(orig, szn, dir, l as int);
            }
            let (mc, mw) = merge_lane(&mut vals);
            proof {
                lemma_merge_from_props(lseq, 0);
            }
            let cc = compact_lane(&mut vals);
            proof {
                lemma_compact_props(merge_pass(lseq));
                assert(vals@ == lane_result(lseq));
                assert(mc as nat + cc as nat == lane_count(lseq));
            }
            let ghost pre = self.board@;
            j = 0;
            while j < size
                invariant
                    self.size == size,
                    1 <= size <= 46340,
                    szn == size as nat,
                    l < size,
                    j <= size,
                    self.board@.len() == size * size,
                    pre.len() == size * size,
                    vals@.len() == size,
                    opw == old(self).printwidth,
                    self.printwidth as nat == (if width_upto(orig, szn, dir, l as int)
                        > opw as nat {
                        width_upto(orig, szn, dir, l as int)
                    } else {
                        opw as nat
                    }),
                    forall|jj: int|
                        0 <= jj < j ==> self.board@[lane_idx(szn, dir, l as int, jj)] == vals@[jj],
                    forall|i: int|
                        0 <= i < pre.len() && !(lane_of(szn, dir, i) == l && pos_of(szn, dir, i)
                            < j) ==> self.board@[i] == pre[i],
                decreases size - j,
            {
                let idx = lane_index(size, dir, l, j);
                let ghost b0 = self.board@;
                self.board[idx] = vals[j];
                proof {
                    lemma_lane_idx(szn, dir, l as int, j as int);
                    assert forall|jj: int|
                        0 <= jj < j + 1 implies self.board@[lane_idx(szn, dir, l as int, jj)]
                        == vals@[jj] by {
                        lemma_lane_idx(szn, dir, l as int, jj);
                    }
                    assert forall|i: int|
                        0 <= i < pre.len() && !(lane_of(szn, dir, i) == l && pos_of(szn, dir, i) < j
                            + 1) implies self.board@[i] == pre[i] by {
                        lemma_idx_lane(szn, dir, i);
                    }
                }
                j = j + 1;
            }
            proof {
                assert forall|i: int|
                    0 <= i < orig.len() && lane_of(szn, dir, i) >= l + 1 implies self.board@[i]
                    == orig[i] by {
                    lemma_idx_lane(szn, dir, i);
                }
                assert forall|ll: int, j2: int|
                    0 <= ll < l + 1 && 0 <= j2 < size implies self.board@[lane_idx(
                    szn,
                    dir,
                    ll,
                    j2,
                )] == lane_result(lane_seq(orig, szn, dir, ll))[j2] by {
                    lemma_lane_idx(szn, dir, ll, j2);
                    if ll < l {
                        lemma_idx_lane(szn, dir, lane_idx(szn, dir, ll, j2));
                    }
                }
                lemma_moves_upto_bound(orig, szn, dir, l as int);
                assert(2 * size * l + 2 * size == 2 * size * (l + 1) && 2 * size * (l + 1) <= 2
                    * size * size && 2 * size * size <= 4294791200) by (nonlinear_arith)
                    requires
                        l + 1 <= size,
                        size <= 46340,
                ;
            }
            proof {
                assert(moves_upto(orig, szn, dir, l as int + 1) == moves_upto(
                    orig,
                    szn,
                    dir,
                    l as int,
                ) + lane_count(lseq));
                assert(width_upto(orig, szn, dir, l as int + 1) == (if lane_width(lseq)
                    > width_upto(orig, szn, dir, l as int) {
                    lane_width(lseq)
                } else {
                    width_upto(orig, szn, dir, l as int)
                }));
                assert(mw as nat == lane_width(lseq));
            }
            fallen = fallen + mc;
            fallen = fallen + cc;
            if mw > self.printwidth {
                self.printwidth = mw;
            }
            l = l + 1;
        }
        proof {
            lemma_cell_max(orig, 0x7fff_ffffu32);
            assert forall|i: int|
                0 <= i < self.board@.len() implies self.board@[i] as int <= 2 * (cell_max(
                orig,
            ) as int) by {
                lemma_idx_lane(szn, dir, i);
                let ll = lane_of(szn, dir, i);
                let pp = pos_of(szn, dir, i);
                let ls = lane_seq(orig, szn, dir, ll);
                lemma_lane_seq_mergeable(orig, szn, dir, ll);
                lemma_merge_from_props(ls, 0);
                lemma_compact_props(merge_pass(ls));
                assert forall|j2: int| 0 <= j2 < ls.len() implies ls[j2] <= cell_max(orig) by {
                    lemma_lane_idx(szn, dir, ll, j2);
                }
                lemma_lane_result_bound(ls, cell_max(orig));
                assert(self.board@[i] == lane_result(ls)[pp]);
            }
            lemma_moves_zero_iff(orig, szn, dir, size as int);
            if fallen == 0 {
                assert forall|i: int| 0 <= i < orig.len() implies self.board@[i] == orig[i] by {
                    lemma_idx_lane(szn, dir, i);
                }
                assert(self.board@ =~= orig);
            }
            if self.board@ == orig {
                assert forall|ll: int| 0 <= ll < size implies lane_result(
                    #[trigger] lane_seq(orig, szn, dir, ll),
                ) == lane_seq(orig, szn, dir, ll) by {
                    let ls = lane_seq(orig, szn, dir, ll);
                    lemma_lane_seq_mergeable(orig, szn, dir, ll);
                    lemma_merge_from_props(ls, 0);
                    lemma_compact_props(merge_pass(ls));
                    assert forall|j2: int| 0 <= j2 < size implies lane_result(ls)[j2] == ls[j2] by {
                        lemma_lane_idx(szn, dir, ll, j2);
                    }
                    assert(lane_result(ls) =~= ls);
                }
            }
        }
        fallen
    }

    /// Write a 2 (or a 4) into the empty cell `i`.
    pub fn place_at(&mut self, i: usize, four: bool)
        requires
            i < old(self).board@.len(),
            old(self).board@[i as int] == 0,
        ensures
            final(self).board@ == old(self).board@.update(
                i as int,
                if four {
                    4u32
                } else {
                    2u32
                },
            ),
            final(self).size == old(self).size,
            final(self).printwidth == old(self).printwidth,
            old(self).well_formed() ==> final(self).well_formed(),
    {
        self.board[i] = if four {
            4
        } else {
            2
        };
    }

    /// Fill one empty cell, chosen uniformly at random, with a 2 or a 4
    /// (each half the time), and return its index; `None` signals a full
    /// board and leaves it unchanged, a normal outcome, not an error.
    pub fn set_rand_empty(&mut self) -> (r: Option<usize>)
        ensures
            final(self).size == old(self).size,
            final(self).printwidth == old(self).printwidth,
            final(self).board@.len() == old(self).board@.len(),
            old(self).well_formed() ==> final(self).well_formed(),
            (r is None) <==> nz_count(old(self).board@) == old(self).board@.len(),
            r is None ==> final(self).board@ == old(self).board@,
            r matches Some(i) ==> i < old(self).board@.len() && old(self).board@[i as int] == 0
                && (final(self).board@[i as int] == 2 || final(self).board@[i as int] == 4)
                && final(self).board@ == old(self).board@.update(
                i as int,
                final(self).board@[i as int],
            ),
    {
        let empties = self.empty_squares();
        if empties.len() == 0 {
            return None;
        }
        let k = rand_below(empties.len());
        let i = empties[k];
        let four = rand_below(2) == 1;
        self.place_at(i, four);
        Some(i)
    }
}

/// Relies on rand::random_range with the process-wide generator: the sample
/// lies within the half-open range it is handed, which must not be empty.
#[verifier::external_body]
fn rand_below(n: usize) -> (r: usize)
    requires
        1 <= n,
    ensures
        r < n,
{
    rand::random_range(0..n)
}

/// Map one pressed key to the move it commands; any other key ends the
/// session.
pub fn key_move(c: char) -> (r: Option<Move>)
    ensures
        (r == Some(Move::Up)) <==> (c == 'l' || c == 'w'),
        (r == Some(Move::Left)) <==> (c == 'j' || c == 'a'),
        (r == Some(Move::Down)) <==> (c == 'k' || c == 's'),
        (r == Some(Move::Right)) <==> (c == ';' || c == 'd'),
        (r is None) <==> !(c == 'l' || c == 'w' || c == 'j' || c == 'a' || c == 'k' || c == 's'
            || c == ';' || c == 'd'),
{
    match c {
        'l' | 'w' => Some(Move::Up),
        'j' | 'a' => Some(Move::Left),
        'k' | 's' => Some(Move::Down),
        ';' | 'd' => Some(Move::Right),
        _ => None,
    }
}

} // verus!
