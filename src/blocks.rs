use vstd::prelude::*;
use crate::board::{
    in_range, is_digit, peers, cell_index, cand_index, block_row, block_col, in_block, lists_cell, Board,
    get_cells_of_block, lemma_cand_index_unique,
};
use crate::grid::{lemma_block_has, lemma_cands_shrink};
use crate::rules::{lemma_deduced_refl, lemma_deduced_trans, lemma_forced_solve};

verus! {

impl Board {
    /// `d` is a candidate of `(r, c)` and of no other cell of block `b`.
    pub open spec fn block_single(&self, b: int, r: int, c: int, d: int) -> bool {
        &&& in_block(b, r, c)
        &&& self.cand(r, c, d)
        &&& forall|r2: int, c2: int|
            in_block(b, r2, c2) && (r2 != r || c2 != c) ==> !#[trigger] self.cand(r2, c2, d)
    }
}

impl Board {
    /// In block `b`, digit `d` is listed by at least two cells, all in row
    /// `row`, and some cell of that row outside the block still lists it.
    pub open spec fn points_row(&self, b: int, d: int, row: int) -> bool {
        &&& exists|c1: int, c2: int|
            c1 != c2 && in_block(b, row, c1) && in_block(b, row, c2) && #[trigger] self.cand(row, c1, d)
                && #[trigger] self.cand(row, c2, d)
        &&& forall|r: int, c: int| in_block(b, r, c) && #[trigger] self.cand(r, c, d) ==> r == row
        &&& exists|c: int| 0 <= c < 9 && !in_block(b, row, c) && #[trigger] self.cand(row, c, d)
    }

    /// In block `b`, digit `d` is listed by at least two cells, all in column
    /// `col`, and some cell of that column outside the block still lists it.
    pub open spec fn points_col(&self, b: int, d: int, col: int) -> bool {
        &&& exists|r1: int, r2: int|
            r1 != r2 && in_block(b, r1, col) && in_block(b, r2, col) && #[trigger] self.cand(r1, col, d)
                && #[trigger] self.cand(r2, col, d)
        &&& forall|r: int, c: int| in_block(b, r, c) && #[trigger] self.cand(r, c, d) ==> c == col
        &&& exists|r: int| 0 <= r < 9 && !in_block(b, r, col) && #[trigger] self.cand(r, col, d)
    }
}

impl Board {
    /// Block `b` points digit `d` out of neither row `x` nor column `x`.
    pub open spec fn no_pointing(&self, b: int, d: int, x: int) -> bool {
        !self.points_row(b, d, x) && !self.points_col(b, d, x)
    }
}

/// Boards in the same state agree on the pointing conditions.
pub proof fn lemma_same_state_points(a: &Board, b: &Board)
    requires
        a.same_state(b),
    ensures
        forall|k: int, d: int, x: int| #[trigger] a.points_row(k, d, x) ==> b.points_row(k, d, x),
        forall|k: int, d: int, x: int| #[trigger] a.points_col(k, d, x) ==> b.points_col(k, d, x),
{
    assert forall|r: int, c: int, d: int| #[trigger] a.cand(r, c, d) == b.cand(r, c, d) by {}
    assert forall|k: int, d: int, x: int| #[trigger] a.points_row(k, d, x) implies b.points_row(k, d, x) by {
        let (c1, c2) = choose|c1: int, c2: int|
            c1 != c2 && in_block(k, x, c1) && in_block(k, x, c2) && #[trigger] a.cand(x, c1, d) && #[trigger] a.cand(x, c2, d);
        assert(b.cand(x, c1, d) && b.cand(x, c2, d));
        let c = choose|c: int| 0 <= c < 9 && !in_block(k, x, c) && #[trigger] a.cand(x, c, d);
        assert(b.cand(x, c, d));
        assert forall|r: int, cc: int| in_block(k, r, cc) && #[trigger] b.cand(r, cc, d) implies r == x by {
            assert(a.cand(r, cc, d));
        }
    }
    assert forall|k: int, d: int, x: int| #[trigger] a.points_col(k, d, x) implies b.points_col(k, d, x) by {
        let (r1, r2) = choose|r1: int, r2: int|
            r1 != r2 && in_block(k, r1, x) && in_block(k, r2, x) && #[trigger] a.cand(r1, x, d) && #[trigger] a.cand(r2, x, d);
        assert(b.cand(r1, x, d) && b.cand(r2, x, d));
        let r = choose|r: int| 0 <= r < 9 && !in_block(k, r, x) && #[trigger] a.cand(r, x, d);
        assert(b.cand(r, x, d));
        assert forall|rr: int, cc: int| in_block(k, rr, cc) && #[trigger] b.cand(rr, cc, d) implies cc == x by {
            assert(a.cand(rr, cc, d));
        }
    }
}

/// No pointing condition holds of `pre` up to position `i` of the block
/// rules' order, nor at `i` itself, so none holds up to `i + 1`.
proof fn lemma_no_points_extend(pre: &Board, mid: &Board, i: int, b: int, d: int)
    requires
        pre.same_state(mid),
        i == 9 * (d - 1) + b,
        0 <= b < 9,
        is_digit(d),
        forall|row: int| !#[trigger] mid.points_row(b, d, row),
        forall|col: int| !#[trigger] mid.points_col(b, d, col),
        forall|b2: int, d2: int, x: int|
            0 <= b2 < 9 && is_digit(d2) && 9 * (d2 - 1) + b2 < i ==> #[trigger] pre.no_pointing(b2, d2, x),
    ensures
        forall|b2: int, d2: int, x: int|
            0 <= b2 < 9 && is_digit(d2) && 9 * (d2 - 1) + b2 < i + 1 ==> #[trigger] pre.no_pointing(b2, d2, x),
{
    lemma_same_state_points(pre, mid);
    assert forall|b2: int, d2: int, x: int|
        0 <= b2 < 9 && is_digit(d2) && 9 * (d2 - 1) + b2 < i + 1 implies #[trigger] pre.no_pointing(b2, d2, x) by {
        if 9 * (d2 - 1) + b2 == i {
            assert(b2 == b && d2 == d);
            assert(!mid.points_row(b2, d2, x));
            assert(!mid.points_col(b2, d2, x));
        }
    }
}

/// The block rules' order covers every block and digit.
proof fn lemma_no_points_all(pre: &Board)
    requires
        forall|b2: int, d2: int, x: int|
            0 <= b2 < 9 && is_digit(d2) && 9 * (d2 - 1) + b2 < 81 ==> #[trigger] pre.no_pointing(b2, d2, x),
    ensures
        forall|b: int, d: int, x: int| 0 <= b < 9 && is_digit(d) ==> #[trigger] pre.no_pointing(b, d, x),
{
    assert forall|b: int, d: int, x: int| 0 <= b < 9 && is_digit(d) implies #[trigger] pre.no_pointing(b, d, x) by {
        assert(9 * (d - 1) + b < 81);
    }
}

/// Two cells of one block that differ are peers.
pub proof fn lemma_block_peers(b: int, r1: int, c1: int, r2: int, c2: int)
    requires
        0 <= b < 9,
        in_block(b, r1, c1),
        in_block(b, r2, c2),
        r1 != r2 || c1 != c2,
    ensures
        peers(r1, c1, r2, c2),
        in_range(r1, c1),
        in_range(r2, c2),
{
    assert(r1 / 3 == b / 3 && r2 / 3 == b / 3);
    assert(c1 / 3 == b % 3 && c2 / 3 == b % 3);
}

/// Every solution puts a block's only holder of a digit there.
pub proof fn lemma_block_single_forced(bd: &Board, b: int, r: int, c: int, d: int)
    requires
        bd.wf(),
        0 <= b < 9,
        is_digit(d),
        bd.block_single(b, r, c, d),
    ensures
        in_range(r, c),
        forall|s: Seq<int>| bd.compatible(s) ==> s[cell_index(r, c)] == d,
{
    lemma_block_peers(b, r, c, r, c + if c % 3 == 2 { -1int } else { 1int });
    assert forall|s: Seq<int>| bd.compatible(s) implies s[cell_index(r, c)] == d by {
        lemma_block_has(s, block_row(b), block_col(b), d);
        let (r1, c1) = choose|r1: int, c1: int|
            block_row(b) <= r1 < block_row(b) + 3 && block_col(b) <= c1 < block_col(b) + 3 && s[cell_index(r1, c1)] == d;
        if r1 != r || c1 != c {
            lemma_block_peers(b, r1, c1, r, c);
            if bd.value(r1, c1) != 0 {
                assert(bd.value(r1, c1) == d);
            } else {
                assert(bd.cand(r1, c1, s[cell_index(r1, c1)]));
            }
        }
    }
}

/// On a solvable board, a block's only holder of a digit keeps the digit
/// through sound deductions: it is solved with it, or still the only holder.
pub proof fn lemma_block_single_kept(pre: &Board, mid: &Board, b: int, r: int, c: int, d: int)
    requires
        pre.wf(),
        mid.deduced_from(pre),
        pre.solvable(),
        0 <= b < 9,
        is_digit(d),
        pre.block_single(b, r, c, d),
    ensures
        mid.value(r, c) != 0 ==> mid.value(r, c) == d,
        mid.value(r, c) == 0 ==> mid.block_single(b, r, c, d),
{
    lemma_block_single_forced(pre, b, r, c, d);
    let s = choose|s: Seq<int>| pre.compatible(s);
    assert(mid.compatible(s));
    assert(s[cell_index(r, c)] == d);
    if mid.value(r, c) == 0 {
        assert(mid.cand(r, c, s[cell_index(r, c)]));
        assert forall|r2: int, c2: int| in_block(b, r2, c2) && (r2 != r || c2 != c) implies !#[trigger] mid.cand(r2, c2, d) by {
            assert(!pre.cand(r2, c2, d));
        }
    }
}

/// On a solvable board, once the block rules have run for a block and
/// digit that point along row `x`, no cell of that row outside the block
/// lists the digit.
pub proof fn lemma_points_row_done(pre: &Board, mid: &Board, post: &Board, b: int, d: int, x: int)
    requires
        pre.wf(),
        mid.deduced_from(pre),
        post.deduced_from(mid),
        pre.solvable(),
        0 <= b < 9,
        is_digit(d),
        pre.points_row(b, d, x),
        forall|r: int, c: int| #[trigger] mid.block_single(b, r, c, d) ==> post.value(r, c) == d,
        mid.points_row(b, d, x) ==> forall|y: int| 0 <= y < 9 && !in_block(b, x, y) ==> !#[trigger] post.cand(x, y, d),
    ensures
        forall|y: int| 0 <= y < 9 && !in_block(b, x, y) ==> !#[trigger] post.cand(x, y, d),
{
    let s = choose|s: Seq<int>| pre.compatible(s);
    assert(mid.compatible(s));
    lemma_block_has(s, block_row(b), block_col(b), d);
    let (rs, cs) = choose|r1: int, c1: int|
        block_row(b) <= r1 < block_row(b) + 3 && block_col(b) <= c1 < block_col(b) + 3 && s[cell_index(r1, c1)] == d;
    assert(in_block(b, rs, cs));
    let (c1, c2) = choose|c1: int, c2: int|
        c1 != c2 && in_block(b, x, c1) && in_block(b, x, c2) && #[trigger] pre.cand(x, c1, d) && #[trigger] pre.cand(x, c2, d);
    if pre.value(rs, cs) != 0 {
        assert(pre.value(rs, cs) == d);
        if rs != x || cs != c1 {
            lemma_block_peers(b, rs, cs, x, c1);
        } else {
            lemma_block_peers(b, rs, cs, x, c2);
        }
    }
    assert(pre.cand(rs, cs, d));
    assert(rs == x);
    assert forall|y: int| 0 <= y < 9 && !in_block(b, x, y) implies !#[trigger] post.cand(x, y, d) by {
        lemma_block_peers(b, x, cs, x, cs + if cs % 3 == 2 { -1int } else { 1int });
        assert(peers(x, cs, x, y));
        if mid.value(x, cs) != 0 {
            assert(mid.value(x, cs) == d);
            assert(!mid.cand(x, y, d));
        } else {
            assert(mid.cand(x, cs, d));
            if mid.block_single(b, x, cs, d) {
                assert(post.value(x, cs) == d);
            } else {
                let (r3, c3) = choose|r3: int, c3: int| in_block(b, r3, c3) && (r3 != x || c3 != cs) && mid.cand(r3, c3, d);
                assert(pre.cand(r3, c3, d));
                assert(r3 == x);
                if mid.cand(x, y, d) {
                    assert(mid.points_row(b, d, x));
                }
            }
        }
    }
}

/// On a solvable board, once the block rules have run for a block and
/// digit that point along column `x`, no cell of that column outside the block
/// lists the digit.
pub proof fn lemma_points_col_done(pre: &Board, mid: &Board, post: &Board, b: int, d: int, x: int)
    requires
        pre.wf(),
        mid.deduced_from(pre),
        post.deduced_from(mid),
        pre.solvable(),
        0 <= b < 9,
        is_digit(d),
        pre.points_col(b, d, x),
        forall|r: int, c: int| #[trigger] mid.block_single(b, r, c, d) ==> post.value(r, c) == d,
        mid.points_col(b, d, x) ==> forall|y: int| 0 <= y < 9 && !in_block(b, y, x) ==> !#[trigger] post.cand(y, x, d),
    ensures
        forall|y: int| 0 <= y < 9 && !in_block(b, y, x) ==> !#[trigger] post.cand(y, x, d),
{
    let s = choose|s: Seq<int>| pre.compatible(s);
    assert(mid.compatible(s));
    lemma_block_has(s, block_row(b), block_col(b), d);
    let (rs, cs) = choose|r1: int, c1: int|
        block_row(b) <= r1 < block_row(b) + 3 && block_col(b) <= c1 < block_col(b) + 3 && s[cell_index(r1, c1)] == d;
    assert(in_block(b, rs, cs));
    let (c1, c2) = choose|c1: int, c2: int|
        c1 != c2 && in_block(b, c1, x) && in_block(b, c2, x) && #[trigger] pre.cand(c1, x, d) && #[trigger] pre.cand(c2, x, d);
    if pre.value(rs, cs) != 0 {
        assert(pre.value(rs, cs) == d);
        if rs != c1 || cs != x {
            lemma_block_peers(b, rs, cs, c1, x);
        } else {
            lemma_block_peers(b, rs, cs, c2, x);
        }
    }
    assert(pre.cand(rs, cs, d));
    assert(cs == x);
    assert forall|y: int| 0 <= y < 9 && !in_block(b, y, x) implies !#[trigger] post.cand(y, x, d) by {
        lemma_block_peers(b, rs, x, rs, x + if x % 3 == 2 { -1int } else { 1int });
        assert(peers(rs, x, y, x));
        if mid.value(rs, x) != 0 {
            assert(mid.value(rs, x) == d);
            assert(!mid.cand(y, x, d));
        } else {
            assert(mid.cand(rs, x, d));
            if mid.block_single(b, rs, x, d) {
                assert(post.value(rs, x) == d);
            } else {
                let (r3, c3) = choose|r3: int, c3: int| in_block(b, r3, c3) && (r3 != rs || c3 != x) && mid.cand(r3, c3, d);
                assert(pre.cand(r3, c3, d));
                assert(c3 == x);
                if mid.cand(y, x, d) {
                    assert(mid.points_col(b, d, x));
                }
            }
        }
    }
}

/// Where every holder of `d` in block `b` lies in row `row`, no solution
/// puts `d` in a cell of that row that is not a holder.
pub proof fn lemma_pointing_row(bd: &Board, b: int, d: int, row: int, hc: int, c0: int)
    requires
        bd.wf(),
        0 <= b < 9,
        is_digit(d),
        in_block(b, row, hc),
        bd.cand(row, hc, d),
        forall|r2: int, c2: int| in_block(b, r2, c2) && #[trigger] bd.cand(r2, c2, d) ==> r2 == row,
        0 <= c0 < 9,
        !(in_block(b, row, c0) && bd.cand(row, c0, d)),
    ensures
        forall|s: Seq<int>| bd.compatible(s) ==> s[cell_index(row, c0)] != d,
{
    assert forall|s: Seq<int>| bd.compatible(s) implies s[cell_index(row, c0)] != d by {
        lemma_block_has(s, block_row(b), block_col(b), d);
        let (r1, c1) = choose|r1: int, c1: int|
            block_row(b) <= r1 < block_row(b) + 3 && block_col(b) <= c1 < block_col(b) + 3 && s[cell_index(r1, c1)] == d;
        assert(in_block(b, r1, c1));
        if bd.value(r1, c1) != 0 {
            assert(bd.value(row, hc) == 0);
            lemma_block_peers(b, r1, c1, row, hc);
            assert(bd.value(r1, c1) == d);
        } else {
            lemma_block_peers(b, r1, c1, r1, c1 + if c1 % 3 == 2 { -1int } else { 1int });
            assert(bd.cand(r1, c1, s[cell_index(r1, c1)]));
            assert(r1 == row);
            if c1 != c0 {
                assert(peers(row, c1, row, c0));
            }
        }
    }
}

/// Where every holder of `d` in block `b` lies in column `col`, no solution
/// puts `d` in a cell of that column that is not a holder.
pub proof fn lemma_pointing_col(bd: &Board, b: int, d: int, col: int, hr: int, r0: int)
    requires
        bd.wf(),
        0 <= b < 9,
        is_digit(d),
        in_block(b, hr, col),
        bd.cand(hr, col, d),
        forall|r2: int, c2: int| in_block(b, r2, c2) && #[trigger] bd.cand(r2, c2, d) ==> c2 == col,
        0 <= r0 < 9,
        !(in_block(b, r0, col) && bd.cand(r0, col, d)),
    ensures
        forall|s: Seq<int>| bd.compatible(s) ==> s[cell_index(r0, col)] != d,
{
    assert forall|s: Seq<int>| bd.compatible(s) implies s[cell_index(r0, col)] != d by {
        lemma_block_has(s, block_row(b), block_col(b), d);
        let (r1, c1) = choose|r1: int, c1: int|
            block_row(b) <= r1 < block_row(b) + 3 && block_col(b) <= c1 < block_col(b) + 3 && s[cell_index(r1, c1)] == d;
        assert(in_block(b, r1, c1));
        if bd.value(r1, c1) != 0 {
            assert(bd.value(hr, col) == 0);
            lemma_block_peers(b, r1, c1, hr, col);
            assert(bd.value(r1, c1) == d);
        } else {
            lemma_block_peers(b, r1, c1, r1, c1 + if c1 % 3 == 2 { -1int } else { 1int });
            assert(bd.cand(r1, c1, s[cell_index(r1, c1)]));
            assert(c1 == col);
            if r1 != r0 {
                assert(peers(r1, col, r0, col));
            }
        }
    }
}

impl Board {
    /// Removes candidate `d` from cell `(r, c)`, which no solution allows.
    fn remove_candidate(&mut self, r: usize, c: usize, d: usize)
        requires
            old(self).wf(),
            in_range(r as int, c as int),
            is_digit(d as int),
            old(self).cand(r as int, c as int, d as int),
            forall|s: Seq<int>| old(self).compatible(s) ==> s[cell_index(r as int, c as int)] != d,
        ensures
            final(self).deduced_from(old(self)),
            final(self).progress() < old(self).progress(),
            final(self).values@ == old(self).values@,
            final(self).solved_count == old(self).solved_count,
            final(self).cands@ == old(self).cands@.update(cand_index(r as int, c as int, d as int), false),
    {
        let ghost pre = *self;
        self.cands.set(81 * r + 9 * c + d - 1, false);
        proof {
            assert forall|r2: int, c2: int, d2: int| in_range(r2, c2) && is_digit(d2) implies #[trigger] self.cand(r2, c2, d2)
                == (pre.cand(r2, c2, d2) && !(r2 == r && c2 == c && d2 == d)) by {
                lemma_cand_index_unique(r2, c2, d2, r as int, c as int, d as int);
            }
            lemma_cands_shrink(&pre, self);
            assert(self.values@ == pre.values@);
            assert forall|r1: int, c1: int, r2: int, c2: int|
                in_range(r1, c1) && in_range(r2, c2) && peers(r1, c1, r2, c2) && self.value(r1, c1) != 0
                    implies !#[trigger] self.cand(r2, c2, self.value(r1, c1)) by {
                assert(pre.value(r1, c1) == self.value(r1, c1));
                assert(!pre.cand(r2, c2, pre.value(r1, c1)));
            }
            assert forall|r1: int, c1: int, d1: int| in_range(r1, c1) && is_digit(d1) && self.value(r1, c1) != 0
                implies !#[trigger] self.cand(r1, c1, d1) by {
                assert(pre.value(r1, c1) == self.value(r1, c1));
            }
            assert forall|r1: int, c1: int| in_range(r1, c1) implies 0 <= #[trigger] self.value(r1, c1) <= 9 by {
                assert(pre.value(r1, c1) == self.value(r1, c1));
            }
            assert(self.wf());
            assert(self.refines(&pre));
            assert(pre.consistent() ==> self.consistent());
            assert forall|s: Seq<int>| pre.compatible(s) implies #[trigger] self.compatible(s) by {
                assert forall|r2: int, c2: int| in_range(r2, c2) implies if self.value(r2, c2) != 0 {
                    s[cell_index(r2, c2)] == #[trigger] self.value(r2, c2)
                } else {
                    self.cand(r2, c2, #[trigger] s[cell_index(r2, c2)])
                } by {
                    assert(pre.value(r2, c2) == self.value(r2, c2));
                    if pre.value(r2, c2) == 0 {
                        assert(pre.cand(r2, c2, s[cell_index(r2, c2)]));
                    }
                }
            }
        }
    }

    /// The cells of block `b` that list `d`, in the block's order.
    fn block_holders(&self, b: usize, d: usize) -> (res: Vec<(usize, usize)>)
        requires
            self.wf(),
            b < 9,
            is_digit(d as int),
        ensures
            res@.len() <= 9,
            forall|i: int| 0 <= i < res@.len() ==> in_block(b as int, #[trigger] res@[i].0 as int, res@[i].1 as int)
                && self.cand(res@[i].0 as int, res@[i].1 as int, d as int),
            forall|i: int, j: int| 0 <= i < j < res@.len() ==> #[trigger] res@[i] != #[trigger] res@[j],
            forall|r: int, c: int| in_block(b as int, r, c) && #[trigger] self.cand(r, c, d as int) ==> lists_cell(res@, r, c),
    {
        let cells = get_cells_of_block(b);
        let mut res: Vec<(usize, usize)> = Vec::new();
        let mut k: usize = 0;
        while k < 9
            invariant
                self.wf(),
                b < 9,
                is_digit(d as int),
                cells@.len() == 9,
                forall|i: int| 0 <= i < 9 ==> #[trigger] cells@[i] == ((block_row(b as int) + i / 3) as usize, (block_col(b as int) + i % 3) as usize),
                k <= 9,
                res@.len() <= k,
                forall|i: int| 0 <= i < res@.len() ==> exists|j: int| 0 <= j < k && #[trigger] res@[i] == cells@[j],
                forall|i: int| 0 <= i < res@.len() ==> in_block(b as int, #[trigger] res@[i].0 as int, res@[i].1 as int)
                    && self.cand(res@[i].0 as int, res@[i].1 as int, d as int),
                forall|i: int, j: int| 0 <= i < j < res@.len() ==> #[trigger] res@[i] != #[trigger] res@[j],
                forall|j: int| 0 <= j < k && self.cand(#[trigger] cells@[j].0 as int, cells@[j].1 as int, d as int) ==> lists_cell(res@, cells@[j].0 as int, cells@[j].1 as int),
            decreases 9 - k,
        {
            let (r, c) = cells[k];
            if self.cands[81 * r + 9 * c + d - 1] {
                let ghost before = res@;
                res.push((r, c));
                proof {
                    assert forall|i: int| 0 <= i < res@.len() implies exists|j: int| 0 <= j < k + 1 && #[trigger] res@[i] == cells@[j] by {
                        if i < before.len() {
                            assert(res@[i] == before[i]);
                        } else {
                            assert(res@[i] == cells@[k as int]);
                        }
                    }
                    assert forall|i: int, j: int| 0 <= i < j < res@.len() implies #[trigger] res@[i] != #[trigger] res@[j] by {
                        if j == before.len() {
                            assert(res@[i] == before[i]);
                            let j2 = choose|j2: int| 0 <= j2 < k && #[trigger] before[i] == cells@[j2];
                            assert(j2 / 3 != k / 3 || j2 % 3 != k % 3);
                        } else {
                            assert(res@[i] == before[i] && res@[j] == before[j]);
                        }
                    }
                    assert forall|j: int| 0 <= j < k + 1 && self.cand(#[trigger] cells@[j].0 as int, cells@[j].1 as int, d as int) implies lists_cell(res@, cells@[j].0 as int, cells@[j].1 as int) by {
                        if j < k {
                            assert(lists_cell(before, cells@[j].0 as int, cells@[j].1 as int));
                            let i = choose|i: int| 0 <= i < before.len() && before[i] == (cells@[j].0 as int as usize, cells@[j].1 as int as usize);
                            assert(res@[i] == before[i]);
                        } else {
                            assert(res@[before.len() as int] == cells@[j]);
                        }
                    }
                }
            }
            k += 1;
        }
        proof {
            assert forall|r: int, c: int| in_block(b as int, r, c) && #[trigger] self.cand(r, c, d as int) implies lists_cell(res@, r, c) by {
                let j = (r - block_row(b as int)) * 3 + (c - block_col(b as int));
                assert(j / 3 == r - block_row(b as int) && j % 3 == c - block_col(b as int));
                assert(0 <= j < 9);
                assert(cells@[j] == (r as usize, c as usize));
                assert(cells@[j].0 as int == r && cells@[j].1 as int == c);
                assert(self.cand(cells@[j].0 as int, cells@[j].1 as int, d as int));
            }
        }
        res
    }
}

impl Board {
    /// The block rules for block `b` and digit `d`: a single holder is
    /// solved; two or three holders on one row (or column) remove `d` from
    /// the rest of that row (or column). Returns whether anything changed.
    fn block_step(&mut self, b: usize, d: usize) -> (found: bool)
        requires
            old(self).wf(),
            b < 9,
            is_digit(d as int),
        ensures
            final(self).deduced_from(old(self)),
            !found ==> final(self).same_state(old(self)),
            found ==> final(self).progress() < old(self).progress(),
            !found ==> forall|r: int, c: int| !#[trigger] old(self).block_single(b as int, r, c, d as int),
            !found ==> forall|row: int| !#[trigger] old(self).points_row(b as int, d as int, row),
            !found ==> forall|col: int| !#[trigger] old(self).points_col(b as int, d as int, col),
            forall|r: int, c: int| #[trigger] old(self).block_single(b as int, r, c, d as int) ==> final(self).value(r, c) == d,
            forall|x: int| #[trigger] old(self).points_row(b as int, d as int, x) ==> forall|y: int|
                0 <= y < 9 && !in_block(b as int, x, y) ==> !#[trigger] final(self).cand(x, y, d as int),
            forall|x: int| #[trigger] old(self).points_col(b as int, d as int, x) ==> forall|y: int|
                0 <= y < 9 && !in_block(b as int, y, x) ==> !#[trigger] final(self).cand(y, x, d as int),
    {
        let ghost pre = *self;
        proof {
            lemma_deduced_refl(&pre);
        }
        let h = self.block_holders(b, d);
        let n = h.len();
        if n == 1 {
            let (r, c) = h[0];
            proof {
                assert forall|r2: int, c2: int| in_block(b as int, r2, c2) && (r2 != r || c2 != c) implies !#[trigger] pre.cand(r2, c2, d as int) by {
                    if pre.cand(r2, c2, d as int) {
                        assert(lists_cell(h@, r2, c2));
                    }
                }
                assert(pre.block_single(b as int, r as int, c as int, d as int));
                lemma_block_single_forced(&pre, b as int, r as int, c as int, d as int);
            }
            self.setsolved(r, c, d);
            proof {
                lemma_forced_solve(&pre, &pre, self, r as int, c as int, d as int);
                assert forall|r2: int, c2: int| #[trigger] pre.block_single(b as int, r2, c2, d as int) implies self.value(r2, c2) == d by {
                    assert(lists_cell(h@, r2, c2));
                }
                assert forall|x: int| !#[trigger] pre.points_row(b as int, d as int, x) by {
                    if pre.points_row(b as int, d as int, x) {
                        let (c1, c2) = choose|c1: int, c2: int|
                            c1 != c2 && in_block(b as int, x, c1) && in_block(b as int, x, c2) && #[trigger] pre.cand(x, c1, d as int)
                                && #[trigger] pre.cand(x, c2, d as int);
                        assert(lists_cell(h@, x, c1));
                        assert(lists_cell(h@, x, c2));
                    }
                }
                assert forall|x: int| !#[trigger] pre.points_col(b as int, d as int, x) by {
                    if pre.points_col(b as int, d as int, x) {
                        let (r1, r2) = choose|r1: int, r2: int|
                            r1 != r2 && in_block(b as int, r1, x) && in_block(b as int, r2, x) && #[trigger] pre.cand(r1, x, d as int)
                                && #[trigger] pre.cand(r2, x, d as int);
                        assert(lists_cell(h@, r1, x));
                        assert(lists_cell(h@, r2, x));
                    }
                }
            }
            return true;
        }
        proof {
            if n >= 2 {
                assert forall|r: int, c: int| !#[trigger] pre.block_single(b as int, r, c, d as int) by {
                    if pre.block_single(b as int, r, c, d as int) {
                        assert(h@[0] != h@[1]);
                        if h@[0].0 != r || h@[0].1 != c {
                            assert(pre.cand(h@[0].0 as int, h@[0].1 as int, d as int));
                        } else {
                            assert(pre.cand(h@[1].0 as int, h@[1].1 as int, d as int));
                        }
                    }
                }
            } else {
                assert forall|r: int, c: int| !#[trigger] pre.block_single(b as int, r, c, d as int) by {
                    if pre.block_single(b as int, r, c, d as int) {
                        assert(lists_cell(h@, r, c));
                    }
                }
            }
        }
        if n != 2 && n != 3 {
            proof {
                if n == 0 {
                    assert forall|row: int| !#[trigger] pre.points_row(b as int, d as int, row) by {
                        if pre.points_row(b as int, d as int, row) {
                            let (c1, c2) = choose|c1: int, c2: int|
                                c1 != c2 && in_block(b as int, row, c1) && in_block(b as int, row, c2) && #[trigger] pre.cand(row, c1, d as int)
                                    && #[trigger] pre.cand(row, c2, d as int);
                            assert(lists_cell(h@, row, c1));
                        }
                    }
                    assert forall|col: int| !#[trigger] pre.points_col(b as int, d as int, col) by {
                        if pre.points_col(b as int, d as int, col) {
                            let (r1, r2) = choose|r1: int, r2: int|
                                r1 != r2 && in_block(b as int, r1, col) && in_block(b as int, r2, col) && #[trigger] pre.cand(r1, col, d as int)
                                    && #[trigger] pre.cand(r2, col, d as int);
                            assert(lists_cell(h@, r1, col));
                        }
                    }
                } else {
                    let (a0, a1, a2, a3) = (h@[0], h@[1], h@[2], h@[3]);
                    assert(a0 != a1 && a0 != a2 && a0 != a3 && a1 != a2 && a1 != a3 && a2 != a3);
                    assert(pre.cand(a0.0 as int, a0.1 as int, d as int) && in_block(b as int, a0.0 as int, a0.1 as int));
                    assert(pre.cand(a1.0 as int, a1.1 as int, d as int) && in_block(b as int, a1.0 as int, a1.1 as int));
                    assert(pre.cand(a2.0 as int, a2.1 as int, d as int) && in_block(b as int, a2.0 as int, a2.1 as int));
                    assert(pre.cand(a3.0 as int, a3.1 as int, d as int) && in_block(b as int, a3.0 as int, a3.1 as int));
                }
            }
            return false;
        }
        let (r0, c0) = h[0];
        let (r1, c1) = h[1];
        let same_row = r1 == r0 && (n == 2 || h[2].0 == r0);
        let same_col = c1 == c0 && (n == 2 || h[2].1 == c0);
        let mut found = false;
        if same_row {
            proof {
                assert forall|r2: int, c2: int| in_block(b as int, r2, c2) && #[trigger] pre.cand(r2, c2, d as int) implies r2 == r0 by {
                    assert(lists_cell(h@, r2, c2));
                    let k = choose|k: int| 0 <= k < h@.len() && h@[k] == (r2 as usize, c2 as usize);
                    assert(k == 0 || k == 1 || k == 2);
                }
            }
            let mut i: usize = 0;
            while i < 9
                invariant
                    pre.wf(),
                    pre == *old(self),
                    b < 9,
                    is_digit(d as int),
                    i <= 9,
                    2 <= n <= 3,
                    n == h@.len(),
                    h@[0] == (r0, c0),
                    h@[1] == (r1, c1),
                    in_block(b as int, r0 as int, c0 as int),
                    forall|r2: int, c2: int| in_block(b as int, r2, c2) && #[trigger] pre.cand(r2, c2, d as int) ==> lists_cell(h@, r2, c2),
                    forall|r2: int, c2: int| in_block(b as int, r2, c2) && #[trigger] pre.cand(r2, c2, d as int) ==> r2 == r0,
                    !found ==> forall|i2: int| 0 <= i2 < i ==> (i2 == c0 || i2 == c1 || (n == 3 && i2 == h@[2].1)) || !#[trigger] pre.cand(r0 as int, i2, d as int),
                    forall|i2: int| 0 <= i2 < i ==> (i2 == c0 || i2 == c1 || (n == 3 && i2 == h@[2].1)) || !#[trigger] self.cand(r0 as int, i2, d as int),
                    self.deduced_from(&pre),
                    self.cand(r0 as int, c0 as int, d as int),
                    forall|r2: int, c2: int| !#[trigger] pre.block_single(b as int, r2, c2, d as int),
                    !found ==> self.same_state(&pre),
                    found ==> self.progress() < pre.progress(),
                decreases 9 - i,
            {
                if !(c0 == i || c1 == i || (n == 3 && h[2].1 == i)) && self.cands[81 * r0 + 9 * i + d - 1] {
                    let ghost mid = *self;
                    proof {
                        lemma_block_peers(b as int, r0 as int, c0 as int, r0 as int, c0 + if c0 % 3 == 2 { -1int } else { 1int });
                        assert forall|r2: int, c2: int| in_block(b as int, r2, c2) && #[trigger] mid.cand(r2, c2, d as int) implies r2 == r0 by {
                            assert(pre.cand(r2, c2, d as int));
                        }
                        if in_block(b as int, r0 as int, i as int) && mid.cand(r0 as int, i as int, d as int) {
                            assert(pre.cand(r0 as int, i as int, d as int));
                            assert(lists_cell(h@, r0 as int, i as int));
                            let k = choose|k: int| 0 <= k < h@.len() && h@[k] == (r0 as int as usize, i as int as usize);
                            assert(k == 0 || k == 1 || k == 2);
                        }
                        lemma_pointing_row(&mid, b as int, d as int, r0 as int, c0 as int, i as int);
                    }
                    self.remove_candidate(r0, i, d);
                    proof {
                        lemma_deduced_trans(&pre, &mid, self);
                        lemma_cand_index_unique(r0 as int, c0 as int, d as int, r0 as int, i as int, d as int);
                    }
                    found = true;
                }
                i += 1;
            }
            proof {
                if !found {
                    assert(h@[0] != h@[1]);
                    assert(pre.cand(r1 as int, c1 as int, d as int) && in_block(b as int, r1 as int, c1 as int));
                    assert forall|row: int| !#[trigger] pre.points_row(b as int, d as int, row) by {
                        if pre.points_row(b as int, d as int, row) {
                            assert(row == r0);
                            let c = choose|c: int| 0 <= c < 9 && !in_block(b as int, row, c) && #[trigger] pre.cand(row, c, d as int);
                            if n == 3 {
                                assert(pre.cand(h@[2].0 as int, h@[2].1 as int, d as int) && in_block(b as int, h@[2].0 as int, h@[2].1 as int));
                            }
                            assert(c != c0 && c != c1);
                        }
                    }
                }
                assert forall|col: int| !#[trigger] pre.points_col(b as int, d as int, col) by {
                    assert(h@[0] != h@[1]);
                    assert(pre.cand(r1 as int, c1 as int, d as int) && in_block(b as int, r1 as int, c1 as int));
                }
                assert(pre.cand(r1 as int, c1 as int, d as int) && in_block(b as int, r1 as int, c1 as int));
                if n == 3 {
                    assert(pre.cand(h@[2].0 as int, h@[2].1 as int, d as int) && in_block(b as int, h@[2].0 as int, h@[2].1 as int));
                }
                assert forall|x: int| #[trigger] pre.points_row(b as int, d as int, x) implies forall|y: int|
                    0 <= y < 9 && !in_block(b as int, x, y) ==> !#[trigger] self.cand(x, y, d as int) by {
                    assert(x == r0);
                    assert forall|y: int| 0 <= y < 9 && !in_block(b as int, x, y) implies !#[trigger] self.cand(x, y, d as int) by {
                        assert(y != c0 && y != c1);
                        if n == 3 {
                            assert(y != h@[2].1);
                        }
                    }
                }
            }
        } else if same_col {
            proof {
                assert forall|r2: int, c2: int| in_block(b as int, r2, c2) && #[trigger] pre.cand(r2, c2, d as int) implies c2 == c0 by {
                    assert(lists_cell(h@, r2, c2));
                    let k = choose|k: int| 0 <= k < h@.len() && h@[k] == (r2 as usize, c2 as usize);
                    assert(k == 0 || k == 1 || k == 2);
                }
            }
            let mut i: usize = 0;
            while i < 9
                invariant
                    pre.wf(),
                    pre == *old(self),
                    b < 9,
                    is_digit(d as int),
                    i <= 9,
                    2 <= n <= 3,
                    n == h@.len(),
                    h@[0] == (r0, c0),
                    h@[1] == (r1, c1),
                    in_block(b as int, r0 as int, c0 as int),
                    forall|r2: int, c2: int| in_block(b as int, r2, c2) && #[trigger] pre.cand(r2, c2, d as int) ==> lists_cell(h@, r2, c2),
                    forall|r2: int, c2: int| in_block(b as int, r2, c2) && #[trigger] pre.cand(r2, c2, d as int) ==> c2 == c0,
                    !found ==> forall|i2: int| 0 <= i2 < i ==> (i2 == r0 || i2 == r1 || (n == 3 && i2 == h@[2].0)) || !#[trigger] pre.cand(i2, c0 as int, d as int),
                    forall|i2: int| 0 <= i2 < i ==> (i2 == r0 || i2 == r1 || (n == 3 && i2 == h@[2].0)) || !#[trigger] self.cand(i2, c0 as int, d as int),
                    self.deduced_from(&pre),
                    self.cand(r0 as int, c0 as int, d as int),
                    forall|r2: int, c2: int| !#[trigger] pre.block_single(b as int, r2, c2, d as int),
                    !found ==> self.same_state(&pre),
                    found ==> self.progress() < pre.progress(),
                decreases 9 - i,
            {
                if !(r0 == i || r1 == i || (n == 3 && h[2].0 == i)) && self.cands[81 * i + 9 * c0 + d - 1] {
                    let ghost mid = *self;
                    proof {
                        lemma_block_peers(b as int, r0 as int, c0 as int, r0 as int, c0 + if c0 % 3 == 2 { -1int } else { 1int });
                        assert forall|r2: int, c2: int| in_block(b as int, r2, c2) && #[trigger] mid.cand(r2, c2, d as int) implies c2 == c0 by {
                            assert(pre.cand(r2, c2, d as int));
                        }
                        if in_block(b as int, i as int, c0 as int) && mid.cand(i as int, c0 as int, d as int) {
                            assert(pre.cand(i as int, c0 as int, d as int));
                            assert(lists_cell(h@, i as int, c0 as int));
                            let k = choose|k: int| 0 <= k < h@.len() && h@[k] == (i as int as usize, c0 as int as usize);
                            assert(k == 0 || k == 1 || k == 2);
                        }
                        lemma_pointing_col(&mid, b as int, d as int, c0 as int, r0 as int, i as int);
                    }
                    self.remove_candidate(i, c0, d);
                    proof {
                        lemma_deduced_trans(&pre, &mid, self);
                        lemma_cand_index_unique(r0 as int, c0 as int, d as int, i as int, c0 as int, d as int);
                    }
                    found = true;
                }
                i += 1;
            }
            proof {
                if !found {
                    assert(h@[0] != h@[1]);
                    assert(pre.cand(r1 as int, c1 as int, d as int) && in_block(b as int, r1 as int, c1 as int));
                    assert forall|col: int| !#[trigger] pre.points_col(b as int, d as int, col) by {
                        if pre.points_col(b as int, d as int, col) {
                            assert(col == c0);
                            let r = choose|r: int| 0 <= r < 9 && !in_block(b as int, r, col) && #[trigger] pre.cand(r, col, d as int);
                            if n == 3 {
                                assert(pre.cand(h@[2].0 as int, h@[2].1 as int, d as int) && in_block(b as int, h@[2].0 as int, h@[2].1 as int));
                            }
                            assert(r != r0 && r != r1);
                        }
                    }
                }
                assert(h@[0] != h@[1]);
                assert(pre.cand(r1 as int, c1 as int, d as int) && in_block(b as int, r1 as int, c1 as int));
                if n == 3 {
                    assert(pre.cand(h@[2].0 as int, h@[2].1 as int, d as int) && in_block(b as int, h@[2].0 as int, h@[2].1 as int));
                }
                assert forall|row: int| !#[trigger] pre.points_row(b as int, d as int, row) by {
                    if n == 3 {
                        assert(pre.cand(h@[2].0 as int, h@[2].1 as int, d as int) && in_block(b as int, h@[2].0 as int, h@[2].1 as int));
                    }
                }
                assert forall|x: int| #[trigger] pre.points_col(b as int, d as int, x) implies forall|y: int|
                    0 <= y < 9 && !in_block(b as int, y, x) ==> !#[trigger] self.cand(y, x, d as int) by {
                    assert(x == c0);
                    assert forall|y: int| 0 <= y < 9 && !in_block(b as int, y, x) implies !#[trigger] self.cand(y, x, d as int) by {
                        assert(y != r0 && y != r1);
                        if n == 3 {
                            assert(y != h@[2].0);
                        }
                    }
                }
            }
        } else {
            proof {
                assert(pre.cand(r1 as int, c1 as int, d as int) && in_block(b as int, r1 as int, c1 as int));
                if n == 3 {
                    assert(pre.cand(h@[2].0 as int, h@[2].1 as int, d as int) && in_block(b as int, h@[2].0 as int, h@[2].1 as int));
                }
            }
        }
        found
    }

    /// Block rules for every digit and block, digit by digit. Returns whether
    /// anything changed.
    #[verifier::spinoff_prover]
    #[verifier::rlimit(60)]
    pub fn check_blocks(&mut self) -> (found: bool)
        requires
            old(self).wf(),
        ensures
            final(self).deduced_from(old(self)),
            !found ==> final(self).same_state(old(self)),
            found ==> final(self).progress() < old(self).progress(),
            !found ==> forall|b: int, r: int, c: int, d: int|
                0 <= b < 9 && is_digit(d) ==> !#[trigger] old(self).block_single(b, r, c, d),
            !found ==> forall|b: int, d: int, x: int|
                0 <= b < 9 && is_digit(d) ==> #[trigger] old(self).no_pointing(b, d, x),
            old(self).solvable() ==> forall|b: int, r: int, c: int, d: int|
                0 <= b < 9 && is_digit(d) && #[trigger] old(self).block_single(b, r, c, d) ==> final(self).value(r, c) == d,
            old(self).solvable() ==> forall|b: int, d: int, x: int|
                0 <= b < 9 && is_digit(d) && #[trigger] old(self).points_row(b, d, x) ==> forall|y: int|
                    0 <= y < 9 && !in_block(b, x, y) ==> !#[trigger] final(self).cand(x, y, d),
            old(self).solvable() ==> forall|b: int, d: int, x: int|
                0 <= b < 9 && is_digit(d) && #[trigger] old(self).points_col(b, d, x) ==> forall|y: int|
                    0 <= y < 9 && !in_block(b, y, x) ==> !#[trigger] final(self).cand(y, x, d),
    {
        let ghost pre = *self;
        proof {
            lemma_deduced_refl(&pre);
        }
        if self.is_solved() {
            assert forall|b: int, r: int, c: int, d: int| 0 <= b < 9 && is_digit(d) implies !#[trigger] pre.block_single(b, r, c, d) by {
                if pre.block_single(b, r, c, d) {
                    lemma_block_single_forced(&pre, b, r, c, d);
                    assert(pre.value(r, c) != 0);
                }
            }
            assert forall|b: int, d: int, x: int| 0 <= b < 9 && is_digit(d) implies #[trigger] pre.no_pointing(b, d, x) by {
                if pre.points_row(b, d, x) {
                    let c = choose|c: int| 0 <= c < 9 && !in_block(b, x, c) && #[trigger] pre.cand(x, c, d);
                    lemma_block_peers(b, x, c, x, c);
                    assert(pre.value(x, c) != 0);
                }
                if pre.points_col(b, d, x) {
                    let r = choose|r: int| 0 <= r < 9 && !in_block(b, r, x) && #[trigger] pre.cand(r, x, d);
                    assert(pre.value(r, x) != 0);
                }
            }
            return false;
        }
        let mut found = false;
        let mut i: usize = 0;
        while i < 81
            invariant
                pre.wf(),
                pre == *old(self),
                i <= 81,
                self.deduced_from(&pre),
                !found ==> self.same_state(&pre),
                found ==> self.progress() < pre.progress(),
                !found ==> forall|b: int, r: int, c: int, d: int|
                    0 <= b < 9 && is_digit(d) && 9 * (d - 1) + b < i ==> !#[trigger] pre.block_single(b, r, c, d),
                !found ==> forall|b: int, d: int, x: int|
                    0 <= b < 9 && is_digit(d) && 9 * (d - 1) + b < i ==> #[trigger] pre.no_pointing(b, d, x),
                pre.solvable() ==> forall|b: int, r: int, c: int, d: int|
                    0 <= b < 9 && is_digit(d) && 9 * (d - 1) + b < i && #[trigger] pre.block_single(b, r, c, d) ==> self.value(r, c) == d,
                pre.solvable() ==> forall|b: int, d: int, x: int|
                    0 <= b < 9 && is_digit(d) && 9 * (d - 1) + b < i && #[trigger] pre.points_row(b, d, x) ==> forall|y: int|
                        0 <= y < 9 && !in_block(b, x, y) ==> !#[trigger] self.cand(x, y, d),
                pre.solvable() ==> forall|b: int, d: int, x: int|
                    0 <= b < 9 && is_digit(d) && 9 * (d - 1) + b < i && #[trigger] pre.points_col(b, d, x) ==> forall|y: int|
                        0 <= y < 9 && !in_block(b, y, x) ==> !#[trigger] self.cand(y, x, d),
            decreases 81 - i,
        {
            let d = i / 9 + 1;
            let b = i % 9;
            let ghost mid = *self;
            let step = self.block_step(b, d);
            proof {
                lemma_deduced_trans(&pre, &mid, self);
                if pre.solvable() {
                    assert forall|b2: int, r: int, c: int, d2: int|
                        0 <= b2 < 9 && is_digit(d2) && 9 * (d2 - 1) + b2 < i + 1 && #[trigger] pre.block_single(b2, r, c, d2) implies self.value(r, c) == d2 by {
                        lemma_block_single_kept(&pre, &mid, b2, r, c, d2);
                        if 9 * (d2 - 1) + b2 == i {
                            assert(b2 == b && d2 == d);
                            if mid.value(r, c) == 0 {
                                assert(mid.block_single(b2, r, c, d2));
                            }
                        } else {
                            assert(mid.value(r, c) == d2);
                        }
                        if mid.value(r, c) != 0 {
                            lemma_block_single_forced(&pre, b2, r, c, d2);
                            assert(self.value(r, c) == mid.value(r, c));
                        }
                    }
                    assert forall|b2: int, d2: int, x: int|
                        0 <= b2 < 9 && is_digit(d2) && 9 * (d2 - 1) + b2 < i + 1 && #[trigger] pre.points_row(b2, d2, x) implies forall|y: int|
                            0 <= y < 9 && !in_block(b2, x, y) ==> !#[trigger] self.cand(x, y, d2) by {
                        if 9 * (d2 - 1) + b2 == i {
                            assert(b2 == b && d2 == d);
                            lemma_points_row_done(&pre, &mid, self, b2, d2, x);
                        } else {
                            assert forall|y: int| 0 <= y < 9 && !in_block(b2, x, y) implies !#[trigger] self.cand(x, y, d2) by {
                                assert(!mid.cand(x, y, d2));
                            }
                        }
                    }
                    assert forall|b2: int, d2: int, x: int|
                        0 <= b2 < 9 && is_digit(d2) && 9 * (d2 - 1) + b2 < i + 1 && #[trigger] pre.points_col(b2, d2, x) implies forall|y: int|
                            0 <= y < 9 && !in_block(b2, y, x) ==> !#[trigger] self.cand(y, x, d2) by {
                        if 9 * (d2 - 1) + b2 == i {
                            assert(b2 == b && d2 == d);
                            lemma_points_col_done(&pre, &mid, self, b2, d2, x);
                        } else {
                            assert forall|y: int| 0 <= y < 9 && !in_block(b2, y, x) implies !#[trigger] self.cand(y, x, d2) by {
                                assert(!mid.cand(y, x, d2));
                            }
                        }
                    }
                }
            }
            proof {
                lemma_deduced_trans(&pre, &mid, self);
                if !found && !step {
                    assert forall|b2: int, r: int, c: int, d2: int|
                        0 <= b2 < 9 && is_digit(d2) && 9 * (d2 - 1) + b2 < i + 1 implies !#[trigger] pre.block_single(b2, r, c, d2) by {
                        if 9 * (d2 - 1) + b2 == i {
                            assert(b2 == b && d2 == d);
                            assert(!mid.block_single(b2, r, c, d2));
                            if pre.block_single(b2, r, c, d2) {
                                assert forall|r2: int, c2: int| in_block(b2, r2, c2) && (r2 != r || c2 != c) implies !#[trigger] mid.cand(r2, c2, d2) by {
                                    assert(!pre.cand(r2, c2, d2));
                                }
                            }
                        }
                    }
                    lemma_no_points_extend(&pre, &mid, i as int, b as int, d as int);
                }
            }
            found = found || step;
            i += 1;
        }
        proof {
            if !found {
                assert forall|b: int, r: int, c: int, d: int| 0 <= b < 9 && is_digit(d) implies !#[trigger] pre.block_single(b, r, c, d) by {
                    assert(9 * (d - 1) + b < 81);
                }
                lemma_no_points_all(&pre);
            }
        }
        found
    }
}

} // verus!
