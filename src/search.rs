use vstd::prelude::*;
use crate::board::{in_range, in_block, is_digit, peers, cell_index, Board, SolveError};
use crate::grid::{lemma_clean_trans, lemma_solve_candidate, lemma_refines_trans, lemma_refines_refl};
use crate::rules::{lemma_deduced_trans, lemma_deduced_refl};
use crate::blocks::lemma_same_state_points;

verus! {

/// An unsolved cell and its candidates.
pub struct CellList {
    pub r: usize,
    pub c: usize,
    pub v: Vec<usize>,
}

/// `cells` lists cell `(r, c)`.
pub open spec fn lists_entry(cells: Seq<CellList>, r: int, c: int) -> bool {
    exists|i: int| 0 <= i < cells.len() && cells[i].r == r && cells[i].c == c
}

/// There are at most `n` candidates up to digit `n`.
pub proof fn lemma_cands_upto_len(b: &Board, r: int, c: int, n: int)
    requires
        0 <= n,
    ensures
        b.cands_upto(r, c, n).len() <= n,
    decreases n,
{
    if n > 0 {
        lemma_cands_upto_len(b, r, c, n - 1);
    }
}

/// Boards in the same state agree on every rule.
proof fn lemma_same_state_rules(a: &Board, b: &Board)
    requires
        a.same_state(b),
    ensures
        forall|r: int, c: int, d: int| #[trigger] a.naked_single(r, c, d) == b.naked_single(r, c, d),
        forall|r: int, c: int| #[trigger] a.dead_cell(r, c) == b.dead_cell(r, c),
        forall|r: int, c: int, d: int| #[trigger] a.row_single(r, c, d) == b.row_single(r, c, d),
        forall|r: int, c: int, d: int| #[trigger] a.col_single(r, c, d) == b.col_single(r, c, d),
        forall|k: int, r: int, c: int, d: int| #[trigger] a.block_single(k, r, c, d) == b.block_single(k, r, c, d),
{
    assert forall|r: int, c: int, d: int| #[trigger] a.naked_single(r, c, d) == b.naked_single(r, c, d) by {
        assert(a.value(r, c) == b.value(r, c));
        assert(a.cand(r, c, d) == b.cand(r, c, d));
        if a.naked_single(r, c, d) {
            assert forall|d2: int| is_digit(d2) && d2 != d implies !#[trigger] b.cand(r, c, d2) by {
                assert(!a.cand(r, c, d2));
            }
        }
        if b.naked_single(r, c, d) {
            assert forall|d2: int| is_digit(d2) && d2 != d implies !#[trigger] a.cand(r, c, d2) by {
                assert(!b.cand(r, c, d2));
            }
        }
    }
    assert forall|r: int, c: int| #[trigger] a.dead_cell(r, c) == b.dead_cell(r, c) by {
        assert(a.value(r, c) == b.value(r, c));
        if a.dead_cell(r, c) {
            assert forall|d2: int| is_digit(d2) implies !#[trigger] b.cand(r, c, d2) by {
                assert(!a.cand(r, c, d2));
            }
        }
        if b.dead_cell(r, c) {
            assert forall|d2: int| is_digit(d2) implies !#[trigger] a.cand(r, c, d2) by {
                assert(!b.cand(r, c, d2));
            }
        }
    }
    assert forall|r: int, c: int, d: int| #[trigger] a.row_single(r, c, d) == b.row_single(r, c, d) by {
        assert(a.cand(r, c, d) == b.cand(r, c, d));
        if a.row_single(r, c, d) {
            assert forall|c2: int| 0 <= c2 < 9 && c2 != c implies !#[trigger] b.cand(r, c2, d) by {
                assert(!a.cand(r, c2, d));
            }
        }
        if b.row_single(r, c, d) {
            assert forall|c2: int| 0 <= c2 < 9 && c2 != c implies !#[trigger] a.cand(r, c2, d) by {
                assert(!b.cand(r, c2, d));
            }
        }
    }
    assert forall|r: int, c: int, d: int| #[trigger] a.col_single(r, c, d) == b.col_single(r, c, d) by {
        assert(a.cand(r, c, d) == b.cand(r, c, d));
        if a.col_single(r, c, d) {
            assert forall|r2: int| 0 <= r2 < 9 && r2 != r implies !#[trigger] b.cand(r2, c, d) by {
                assert(!a.cand(r2, c, d));
            }
        }
        if b.col_single(r, c, d) {
            assert forall|r2: int| 0 <= r2 < 9 && r2 != r implies !#[trigger] a.cand(r2, c, d) by {
                assert(!b.cand(r2, c, d));
            }
        }
    }
    assert forall|k: int, r: int, c: int, d: int| #[trigger] a.block_single(k, r, c, d) == b.block_single(k, r, c, d) by {
        assert(a.cand(r, c, d) == b.cand(r, c, d));
        if a.block_single(k, r, c, d) {
            assert forall|r2: int, c2: int| in_block(k, r2, c2) && (r2 != r || c2 != c) implies !#[trigger] b.cand(r2, c2, d) by {
                assert(!a.cand(r2, c2, d));
            }
        }
        if b.block_single(k, r, c, d) {
            assert forall|r2: int, c2: int| in_block(k, r2, c2) && (r2 != r || c2 != c) implies !#[trigger] a.cand(r2, c2, d) by {
                assert(!b.cand(r2, c2, d));
            }
        }
    }
}

/// Every entry of the candidate list up to `n` is a candidate digit, and
/// every candidate digit up to `n` is in it.
pub proof fn lemma_cands_upto_members(b: &Board, r: int, c: int, n: int)
    requires
        0 <= n <= 9,
    ensures
        forall|i: int| 0 <= i < b.cands_upto(r, c, n).len() ==> 1 <= #[trigger] b.cands_upto(r, c, n)[i] <= n
            && b.cand(r, c, b.cands_upto(r, c, n)[i] as int),
        forall|d: int| 1 <= d <= n && #[trigger] b.cand(r, c, d) ==> b.cands_upto(r, c, n).contains(d as usize),
        forall|i: int, k: int|
            0 <= i < k < b.cands_upto(r, c, n).len() ==> #[trigger] b.cands_upto(r, c, n)[i] < #[trigger] b.cands_upto(r, c, n)[k],
    decreases n,
{
    if n > 0 {
        lemma_cands_upto_members(b, r, c, n - 1);
        let prev = b.cands_upto(r, c, n - 1);
        let cur = b.cands_upto(r, c, n);
        assert forall|i: int| 0 <= i < prev.len() implies #[trigger] cur[i] == prev[i] by {}
        assert forall|i: int, k: int| 0 <= i < k < cur.len() implies #[trigger] cur[i] < #[trigger] cur[k] by {
            assert(cur[i] == prev[i]);
            if k < prev.len() {
                assert(cur[k] == prev[k]);
            }
        }
        assert forall|d: int| 1 <= d <= n && #[trigger] b.cand(r, c, d) implies cur.contains(d as usize) by {
            if d < n {
                let i = choose|i: int| 0 <= i < prev.len() && prev[i] == d as usize;
                assert(cur[i] == prev[i]);
            } else {
                assert(cur[prev.len() as int] == d as usize);
            }
        }
    }
}

/// Boards in the same state share every property of the model.
proof fn lemma_same_state_model(a: &Board, b: &Board)
    requires
        a.wf(),
        b.same_state(a),
    ensures
        b.wf(),
        forall|r: int, c: int| #[trigger] b.value(r, c) == a.value(r, c),
        forall|r: int, c: int, d: int| #[trigger] b.cand(r, c, d) == a.cand(r, c, d),
        b.refines(a),
        b.deduced_from(a),
        b.progress() == a.progress(),
        a.consistent() ==> b.consistent(),
        a.complete() ==> b.complete(),
        a.solvable() ==> b.solvable(),
{
    assert forall|r: int, c: int| #[trigger] b.value(r, c) == a.value(r, c) by {}
    assert forall|r: int, c: int, d: int| #[trigger] b.cand(r, c, d) == a.cand(r, c, d) by {}
    assert forall|r1: int, c1: int, r2: int, c2: int|
        in_range(r1, c1) && in_range(r2, c2) && peers(r1, c1, r2, c2) && b.value(r1, c1) != 0
            implies !#[trigger] b.cand(r2, c2, b.value(r1, c1)) by {
        assert(!a.cand(r2, c2, a.value(r1, c1)));
    }
    if a.consistent() {
        assert forall|r1: int, c1: int, r2: int, c2: int|
            in_range(r1, c1) && in_range(r2, c2) && peers(r1, c1, r2, c2) && #[trigger] b.value(r1, c1) != 0
                implies b.value(r1, c1) != #[trigger] b.value(r2, c2) by {
            assert(a.value(r1, c1) != 0);
        }
    }
    assert forall|s: Seq<int>| a.compatible(s) implies #[trigger] b.compatible(s) by {
        assert forall|r: int, c: int| in_range(r, c) implies if b.value(r, c) != 0 {
            s[cell_index(r, c)] == #[trigger] b.value(r, c)
        } else {
            b.cand(r, c, #[trigger] s[cell_index(r, c)])
        } by {
            assert(a.value(r, c) == b.value(r, c));
            if a.value(r, c) == 0 {
                assert(a.cand(r, c, s[cell_index(r, c)]));
            }
        }
    }
    if a.solvable() {
        let s = choose|s: Seq<int>| a.compatible(s);
        assert(b.compatible(s));
    }
    lemma_refines_refl(a);
}

impl Clone for Board {
    fn clone(&self) -> (res: Self)
        ensures
            res.same_state(self),
    {
        let values = self.values.clone();
        let cands = self.cands.clone();
        assert(values@ =~= self.values@);
        assert(cands@ =~= self.cands@);
        Board { values, cands, solved_count: self.solved_count }
    }
}

impl Board {
    /// No rule applies: no unsolved cell has one or no candidate, no digit
    /// has a single holder in a row, a column or a block, and no block
    /// points a digit out of the rest of a row or column.
    pub open spec fn stalled(&self) -> bool {
        &&& forall|r: int, c: int, d: int| in_range(r, c) ==> !#[trigger] self.naked_single(r, c, d)
        &&& forall|r: int, c: int| in_range(r, c) ==> !#[trigger] self.dead_cell(r, c)
        &&& forall|r: int, c: int, d: int| in_range(r, c) && is_digit(d) ==> !#[trigger] self.row_single(r, c, d)
        &&& forall|r: int, c: int, d: int| in_range(r, c) && is_digit(d) ==> !#[trigger] self.col_single(r, c, d)
        &&& forall|b: int, r: int, c: int, d: int| 0 <= b < 9 && is_digit(d) ==> !#[trigger] self.block_single(b, r, c, d)
        &&& forall|b: int, d: int, x: int|
            0 <= b < 9 && is_digit(d) ==> #[trigger] self.no_pointing(b, d, x)
    }

    /// Runs the rules (cells, rows, columns, blocks) until the board is
    /// solved or a whole round changes nothing. Fails when a cell is left
    /// with no candidate, which no solution allows.
    pub fn try_board(&mut self) -> (res: Result<(), SolveError>)
        requires
            old(self).wf(),
        ensures
            final(self).deduced_from(old(self)),
            res is Ok ==> final(self).complete() || final(self).stalled(),
            res is Err ==> res == Err::<(), SolveError>(SolveError::Deduction) && !old(self).solvable(),
    {
        let ghost pre = *self;
        proof {
            lemma_deduced_refl(&pre);
        }
        loop
            invariant
                pre.wf(),
                pre == *old(self),
                self.deduced_from(&pre),
            decreases self.progress(),
        {
            let ghost s0 = *self;
            proof {
                crate::board::lemma_count_true_bounds(self.cands@, 729);
                crate::board::lemma_count_nonzero_full(self.values@, 81);
            }
            let fcell = match self.check_cells() {
                Ok(f) => f,
                Err(e) => {
                    proof {
                        if pre.solvable() {
                            let s = choose|s: Seq<int>| pre.compatible(s);
                            assert(s0.compatible(s));
                        }
                    }
                    return Err(e);
                },
            };
            let ghost s1 = *self;
            let frow = self.check_rows();
            let ghost s2 = *self;
            let fcol = self.check_cols();
            let ghost s3 = *self;
            let fblock = self.check_blocks();
            proof {
                lemma_deduced_trans(&pre, &s0, &s1);
                lemma_deduced_trans(&pre, &s1, &s2);
                lemma_deduced_trans(&pre, &s2, &s3);
                lemma_deduced_trans(&pre, &s3, self);
            }
            if self.is_solved() {
                return Ok(());
            }
            if !(fcell || frow || fcol || fblock) {
                proof {
                    lemma_same_state_rules(&s0, &s1);
                    lemma_same_state_rules(&s1, &s2);
                    lemma_same_state_rules(&s2, &s3);
                    lemma_same_state_rules(&s3, self);
                    assert forall|r: int, c: int, d: int| in_range(r, c) implies !#[trigger] self.naked_single(r, c, d) by {
                        assert(!s0.naked_single(r, c, d));
                    }
                    assert forall|r: int, c: int| in_range(r, c) implies !#[trigger] self.dead_cell(r, c) by {
                        assert(!s0.dead_cell(r, c));
                    }
                    assert forall|r: int, c: int, d: int| in_range(r, c) && is_digit(d) implies !#[trigger] self.row_single(r, c, d) by {
                        assert(!s1.row_single(r, c, d));
                    }
                    assert forall|r: int, c: int, d: int| in_range(r, c) && is_digit(d) implies !#[trigger] self.col_single(r, c, d) by {
                        assert(!s2.col_single(r, c, d));
                    }
                    assert forall|k: int, r: int, c: int, d: int| 0 <= k < 9 && is_digit(d) implies !#[trigger] self.block_single(k, r, c, d) by {
                        assert(!s3.block_single(k, r, c, d));
                    }
                    lemma_same_state_points(self, &s3);
                    assert forall|k: int, d: int, x: int| 0 <= k < 9 && is_digit(d) implies #[trigger] self.no_pointing(k, d, x) by {
                        assert(s3.no_pointing(k, d, x));
                    }
                }
                return Ok(());
            }
            proof {
                assert(self.progress() < s0.progress());
                crate::board::lemma_count_true_bounds(self.cands@, 729);
                crate::board::lemma_count_nonzero_full(self.values@, 81);
            }
        }
    }
}

impl Board {
    /// Every unsolved cell with its candidates, the cells with most
    /// candidates first; among equals, later cells (row-major) come first.
    pub fn shortest_cell(&self) -> (res: Vec<CellList>)
        requires
            self.wf(),
        ensures
            forall|i: int|
                0 <= i < res@.len() ==> in_range(#[trigger] res@[i].r as int, res@[i].c as int) && self.value(
                    res@[i].r as int,
                    res@[i].c as int,
                ) == 0 && res@[i].v@ == self.cand_list(res@[i].r as int, res@[i].c as int),
            forall|i: int, j: int| 0 <= i < j < res@.len() ==> #[trigger] res@[i].v@.len() >= #[trigger] res@[j].v@.len(),
            forall|r: int, c: int| in_range(r, c) && self.value(r, c) == 0 ==> #[trigger] lists_entry(res@, r, c),
            forall|i: int, j: int| 0 <= i < j < res@.len() && #[trigger] res@[i].v@.len() == #[trigger] res@[j].v@.len() ==> cell_index(res@[i].r as int, res@[i].c as int) > cell_index(res@[j].r as int, res@[j].c as int),
            forall|i: int, j: int| 0 <= i < j < res@.len() ==> (#[trigger] res@[i].r, res@[i].c) != (#[trigger] res@[j].r, res@[j].c),
    {
        let mut res: Vec<CellList> = Vec::new();
        let mut k: usize = 10;
        proof {
            assert forall|r: int, c: int| in_range(r, c) implies #[trigger] self.cand_list(r, c).len() < 10 by {
                lemma_cands_upto_len(self, r, c, 9);
            }
        }
        while k > 0
            invariant
                self.wf(),
                k <= 10,
                forall|i: int|
                    0 <= i < res@.len() ==> in_range(#[trigger] res@[i].r as int, res@[i].c as int) && self.value(
                        res@[i].r as int,
                        res@[i].c as int,
                    ) == 0 && res@[i].v@ == self.cand_list(res@[i].r as int, res@[i].c as int) && res@[i].v@.len() >= k,
                forall|i: int, j: int| 0 <= i < j < res@.len() ==> #[trigger] res@[i].v@.len() >= #[trigger] res@[j].v@.len(),
                forall|r: int, c: int| in_range(r, c) && self.value(r, c) == 0 && self.cand_list(r, c).len() >= k
                    ==> #[trigger] lists_entry(res@, r, c),
                forall|i: int, j: int| 0 <= i < j < res@.len() && #[trigger] res@[i].v@.len() == #[trigger] res@[j].v@.len() ==> cell_index(res@[i].r as int, res@[i].c as int) > cell_index(res@[j].r as int, res@[j].c as int),
            decreases k,
        {
            k -= 1;
            let mut i: usize = 81;
            while i > 0
                invariant
                    self.wf(),
                    k < 10,
                    i <= 81,
                    forall|i: int|
                        0 <= i < res@.len() ==> in_range(#[trigger] res@[i].r as int, res@[i].c as int) && self.value(
                            res@[i].r as int,
                            res@[i].c as int,
                        ) == 0 && res@[i].v@ == self.cand_list(res@[i].r as int, res@[i].c as int) && res@[i].v@.len() >= k,
                    forall|i: int, j: int| 0 <= i < j < res@.len() ==> #[trigger] res@[i].v@.len() >= #[trigger] res@[j].v@.len(),
                    forall|r: int, c: int| in_range(r, c) && self.value(r, c) == 0 && (self.cand_list(r, c).len() > k
                        || (self.cand_list(r, c).len() == k && cell_index(r, c) >= i)) ==> #[trigger] lists_entry(res@, r, c),
                    forall|i: int, j: int| 0 <= i < j < res@.len() && #[trigger] res@[i].v@.len() == #[trigger] res@[j].v@.len() ==> cell_index(res@[i].r as int, res@[i].c as int) > cell_index(res@[j].r as int, res@[j].c as int),
                    forall|a: int| 0 <= a < res@.len() && #[trigger] res@[a].v@.len() == k ==> cell_index(res@[a].r as int, res@[a].c as int) >= i,
                decreases i,
            {
                i -= 1;
                let r = i / 9;
                let c = i % 9;
                assert(cell_index(r as int, c as int) == i);
                if self.values[i] == 0 {
                    let v = self.candidates(r, c);
                    if v.len() == k {
                        let ghost before = res@;
                        res.push(CellList { r, c, v });
                        proof {
                            assert forall|r2: int, c2: int| in_range(r2, c2) && self.value(r2, c2) == 0 && (self.cand_list(r2, c2).len() > k
                                || (self.cand_list(r2, c2).len() == k && cell_index(r2, c2) >= i)) implies #[trigger] lists_entry(res@, r2, c2) by {
                                if r2 == r && c2 == c {
                                    assert(res@[before.len() as int].r == r2 && res@[before.len() as int].c == c2);
                                } else {
                                    assert(cell_index(r2, c2) != i);
                                    assert(lists_entry(before, r2, c2));
                                    let j = choose|j: int| 0 <= j < before.len() && before[j].r == r2 && before[j].c == c2;
                                    assert(res@[j] == before[j]);
                                }
                            }
                            assert(res@.len() == before.len() + 1);
                            assert(res@[before.len() as int].v@.len() == k);
                            assert forall|a: int| 0 <= a < before.len() implies #[trigger] res@[a] == before[a] by {}
                            assert forall|a: int, b: int| 0 <= a < b < res@.len() implies #[trigger] res@[a].v@.len() >= #[trigger] res@[b].v@.len() by {
                                assert(res@[a] == before[a]);
                                if b < before.len() {
                                    assert(res@[b] == before[b]);
                                    assert(before[a].v@.len() >= before[b].v@.len());
                                } else {
                                    assert(in_range(before[a].r as int, before[a].c as int));
                                    assert(before[a].v@.len() >= k);
                                }
                            }
                            assert forall|a: int, b: int| 0 <= a < b < res@.len() && #[trigger] res@[a].v@.len() == #[trigger] res@[b].v@.len() implies cell_index(res@[a].r as int, res@[a].c as int) > cell_index(res@[b].r as int, res@[b].c as int) by {
                                assert(res@[a] == before[a]);
                                if b < before.len() {
                                    assert(res@[b] == before[b]);
                                } else {
                                    assert(before[a].v@.len() == k);
                                }
                            }
                            assert forall|a: int| 0 <= a < res@.len() && #[trigger] res@[a].v@.len() == k implies cell_index(res@[a].r as int, res@[a].c as int) >= i by {
                                if a < before.len() {
                                    assert(res@[a] == before[a]);
                                }
                            }
                            assert forall|a: int| 0 <= a < res@.len() implies in_range(#[trigger] res@[a].r as int, res@[a].c as int) && self.value(
                                res@[a].r as int,
                                res@[a].c as int,
                            ) == 0 && res@[a].v@ == self.cand_list(res@[a].r as int, res@[a].c as int) && res@[a].v@.len() >= k by {
                                if a < before.len() {
                                    assert(res@[a] == before[a]);
                                }
                            }
                        }
                    } else {
                        proof {
                            assert forall|r2: int, c2: int| in_range(r2, c2) && self.value(r2, c2) == 0 && (self.cand_list(r2, c2).len() > k
                                || (self.cand_list(r2, c2).len() == k && cell_index(r2, c2) >= i)) implies #[trigger] lists_entry(res@, r2, c2) by {
                                if cell_index(r2, c2) == i {
                                    assert(r2 == r && c2 == c);
                                }
                            }
                        }
                    }
                } else {
                    proof {
                        assert forall|r2: int, c2: int| in_range(r2, c2) && self.value(r2, c2) == 0 && (self.cand_list(r2, c2).len() > k
                            || (self.cand_list(r2, c2).len() == k && cell_index(r2, c2) >= i)) implies #[trigger] lists_entry(res@, r2, c2) by {
                            if cell_index(r2, c2) == i {
                                assert(r2 == r && c2 == c);
                            }
                        }
                    }
                }
            }
        }
        proof {
            assert forall|r: int, c: int| in_range(r, c) && self.value(r, c) == 0 implies #[trigger] lists_entry(res@, r, c) by {
                assert(self.cand_list(r, c).len() >= 0);
            }
            assert forall|i: int, j: int| 0 <= i < j < res@.len() implies (#[trigger] res@[i].r, res@[i].c) != (#[trigger] res@[j].r, res@[j].c) by {
                if res@[i].r == res@[j].r && res@[i].c == res@[j].c {
                    assert(res@[i].v@.len() == res@[j].v@.len());
                }
            }
        }
        res
    }
}

impl Board {
    /// The solved values, row-major.
    pub open spec fn grid(&self) -> Seq<int> {
        Seq::new(81, |i: int| self.values@[i] as int)
    }

    /// Cell `(r, c)` is where the search branches: an unsolved cell with the
    /// most candidates, the last such cell in row-major order.
    pub open spec fn branch_cell(&self, r: int, c: int) -> bool {
        &&& in_range(r, c)
        &&& self.value(r, c) == 0
        &&& forall|r2: int, c2: int|
            in_range(r2, c2) && self.value(r2, c2) == 0 ==> #[trigger] self.cand_list(r2, c2).len() < self.cand_list(r, c).len()
                || (self.cand_list(r2, c2).len() == self.cand_list(r, c).len() && cell_index(r2, c2) <= cell_index(r, c))
    }

    /// Propagates, then, if cells remain unsolved, branches (see `branch`)
    /// on the propagated board, which the hypotheses leave untouched. Fails
    /// with `Deduction` when propagation meets a cell with no candidate.
    pub fn solve_board(&mut self) -> (res: Result<Board, SolveError>)
        requires
            old(self).wf(),
        ensures
            final(self).deduced_from(old(self)),
            res != Err::<Board, SolveError>(SolveError::Deduction) ==> final(self).complete() || final(self).stalled(),
            res matches Ok(b) ==> b.wf() && b.complete() && b.refines(old(self)) && b.clean_from(old(self)),
            res matches Ok(b) ==> (old(self).consistent() ==> b.consistent() && old(self).compatible(b.grid())),
            old(self).solvable() ==> res is Ok,
            res is Err ==> res == Err::<Board, SolveError>(SolveError::Deduction) || res == Err::<Board, SolveError>(
                SolveError::Exhausted,
            ),
            res == Err::<Board, SolveError>(SolveError::Deduction) ==> !old(self).solvable(),
        decreases old(self).progress(), 1int,
    {
        let ghost pre = *self;
        match self.try_board() {
            Err(e) => {
                return Err(e);
            },
            Ok(()) => {},
        }
        if self.is_solved() {
            let b = self.clone();
            proof {
                lemma_same_state_model(self, &b);
                lemma_deduced_trans(&pre, self, &b);
                lemma_complete_compatible(&pre, &b);
            }
            return Ok(b);
        }
        proof {
            crate::board::lemma_count_true_bounds(self.cands@, 729);
            crate::board::lemma_count_nonzero_full(self.values@, 81);
            assert(self.progress() <= pre.progress());
        }
        let res = self.branch();
        proof {
            if pre.solvable() {
                let s = choose|s: Seq<int>| pre.compatible(s);
                assert(self.compatible(s));
            }
            if res is Ok {
                let b = res->Ok_0;
                lemma_refines_trans(&pre, self, &b);
                lemma_clean_trans(&pre, self, &b);
                lemma_complete_compatible(&pre, &b);
            }
        }
        res
    }

    /// Branches on the cell `shortest_cell` lists first: each of its
    /// candidates in ascending order is solved into a copy of the board, and
    /// the first copy that `solve_board` solves is the answer, so the cell
    /// gets the least candidate that leads to a solution. Fails with
    /// `Exhausted` when none does; no other cell is tried.
    pub fn branch(&self) -> (res: Result<Board, SolveError>)
        requires
            self.wf(),
            !self.complete(),
        ensures
            res matches Ok(b) ==> b.wf() && b.complete() && b.refines(self) && b.clean_from(self),
            res matches Ok(b) ==> (self.consistent() ==> b.consistent()),
            res matches Ok(b) ==> forall|r: int, c: int| #[trigger] self.branch_cell(r, c) ==> {
                &&& self.cand(r, c, b.value(r, c))
                &&& forall|v: int, post: Board|
                    is_digit(v) && v < b.value(r, c) && self.cand(r, c, v) && post.wf() && #[trigger] Board::solve_step(self, &post, r, c, v)
                        ==> !post.solvable()
            },
            self.solvable() ==> res is Ok,
            res is Err ==> res == Err::<Board, SolveError>(SolveError::Exhausted),
        decreases self.progress(), 0int,
    {
        let cells = self.shortest_cell();
        if cells.len() == 0 {
            proof {
                let (r, c) = choose|r: int, c: int| in_range(r, c) && self.value(r, c) == 0;
                assert(lists_entry(cells@, r, c));
            }
            return Err(SolveError::Exhausted);
        }
        let r = cells[0].r;
        let c = cells[0].c;
        let ghost list = cells@[0].v@;
        proof {
            assert forall|r2: int, c2: int| #[trigger] self.branch_cell(r2, c2) implies r2 == r && c2 == c by {
                assert forall|r3: int, c3: int| in_range(r3, c3) && self.value(r3, c3) == 0 implies #[trigger] self.cand_list(r3, c3).len() < self.cand_list(r as int, c as int).len()
                    || (self.cand_list(r3, c3).len() == self.cand_list(r as int, c as int).len() && cell_index(r3, c3) <= cell_index(r as int, c as int)) by {
                    assert(lists_entry(cells@, r3, c3));
                    let i = choose|i: int| 0 <= i < cells@.len() && cells@[i].r == r3 && cells@[i].c == c3;
                    if i > 0 {
                        assert(cells@[0].v@.len() >= cells@[i].v@.len());
                    }
                }
                assert(in_range(r as int, c as int));
                assert(self.branch_cell(r as int, c as int));
                let l1 = self.cand_list(r2, c2).len();
                let l2 = self.cand_list(r as int, c as int).len();
                assert(l1 <= l2 && l2 <= l1);
            }
        }
        let ghost target: int = if self.solvable() {
            let s = choose|s: Seq<int>| self.compatible(s);
            s[cell_index(r as int, c as int)]
        } else {
            0
        };
        proof {
            lemma_cands_upto_members(self, r as int, c as int, 9);
            if self.solvable() {
                let s = choose|s: Seq<int>| self.compatible(s);
                assert(self.cand(r as int, c as int, s[cell_index(r as int, c as int)]));
            }
        }
        let mut j: usize = 0;
        while j < cells[0].v.len()
            invariant
                self.wf(),
                cells@.len() > 0,
                cells@[0].r == r,
                cells@[0].c == c,
                in_range(r as int, c as int),
                self.value(r as int, c as int) == 0,
                forall|r2: int, c2: int| #[trigger] self.branch_cell(r2, c2) ==> r2 == r && c2 == c,
                list == cells@[0].v@,
                list == self.cand_list(r as int, c as int),
                forall|i: int| 0 <= i < list.len() ==> 1 <= #[trigger] list[i] <= 9 && self.cand(r as int, c as int, list[i] as int),
                forall|i: int, k: int| 0 <= i < k < list.len() ==> #[trigger] list[i] < #[trigger] list[k],
                forall|d: int| 1 <= d <= 9 && #[trigger] self.cand(r as int, c as int, d) ==> list.contains(d as usize),
                self.solvable() ==> list.contains(target as usize) && is_digit(target),
                self.solvable() ==> exists|s: Seq<int>| #[trigger] self.compatible(s) && s[cell_index(r as int, c as int)] == target,
                self.solvable() ==> forall|i: int| 0 <= i < j ==> list[i] != target as usize,
                forall|i: int, post: Board|
                    0 <= i < j && post.wf() && #[trigger] Board::solve_step(self, &post, r as int, c as int, list[i] as int) ==> !post.solvable(),
                j <= list.len(),
            decreases list.len() - j,
        {
            let v = cells[0].v[j];
            let mut bcopy = self.clone();
            proof {
                lemma_same_state_model(self, &bcopy);
            }
            let ghost b0 = bcopy;
            bcopy.setsolved(r, c, v);
            proof {
                lemma_solve_candidate(&b0, &bcopy, r as int, c as int, v as int);
                lemma_refines_trans(self, &b0, &bcopy);
                lemma_clean_trans(self, &b0, &bcopy);
                crate::board::lemma_count_true_bounds(bcopy.cands@, 729);
                crate::board::lemma_count_nonzero_full(bcopy.values@, 81);
            }
            let ghost b1 = bcopy;
            match bcopy.solve_board() {
                Ok(b) => {
                    proof {
                        lemma_refines_trans(self, &b1, &b);
                        lemma_clean_trans(self, &b1, &b);
                        assert(b.value(r as int, c as int) == v);
                        assert forall|r2: int, c2: int| #[trigger] self.branch_cell(r2, c2) implies {
                            &&& self.cand(r2, c2, b.value(r2, c2))
                            &&& forall|w: int, post: Board|
                                is_digit(w) && w < b.value(r2, c2) && self.cand(r2, c2, w) && post.wf() && #[trigger] Board::solve_step(self, &post, r2, c2, w)
                                    ==> !post.solvable()
                        } by {
                            assert(r2 == r && c2 == c);
                            assert forall|w: int, post: Board|
                                is_digit(w) && w < b.value(r2, c2) && self.cand(r2, c2, w) && post.wf() && #[trigger] Board::solve_step(self, &post, r2, c2, w)
                                    implies !post.solvable() by {
                                assert(list.contains(w as usize));
                                let i = choose|i: int| 0 <= i < list.len() && list[i] == w as usize;
                                if i >= j {
                                    assert(list[j as int] <= list[i]);
                                }
                            }
                        }
                    }
                    return Ok(b);
                },
                Err(_) => {
                    proof {
                        if self.solvable() && v == target {
                            let s = choose|s: Seq<int>| #[trigger] self.compatible(s) && s[cell_index(r as int, c as int)] == target;
                            assert(b0.compatible(s));
                            assert(b1.compatible(s));
                        }
                        assert forall|i: int, post: Board|
                            0 <= i < j + 1 && post.wf() && #[trigger] Board::solve_step(self, &post, r as int, c as int, list[i] as int) implies !post.solvable() by {
                            if i == j {
                                lemma_solve_step_same(self, &b1, &post, r as int, c as int, v as int);
                            }
                        }
                    }
                },
            }
            j += 1;
        }
        proof {
            if self.solvable() {
                let i = choose|i: int| 0 <= i < list.len() && list[i] == target as usize;
            }
        }
        Err(SolveError::Exhausted)
    }
}

/// Two results of one solve step allow the same solutions.
proof fn lemma_solve_step_same(a: &Board, p1: &Board, p2: &Board, r: int, c: int, v: int)
    requires
        a.wf(),
        Board::solve_step(a, p1, r, c, v),
        Board::solve_step(a, p2, r, c, v),
    ensures
        p1.solvable() == p2.solvable(),
{
    assert forall|r1: int, c1: int| #[trigger] p1.value(r1, c1) == p2.value(r1, c1) by {}
    assert forall|r1: int, c1: int, d: int| in_range(r1, c1) && is_digit(d) implies #[trigger] p1.cand(r1, c1, d) == p2.cand(r1, c1, d) by {
        if a.value(r, c) != 0 {
            assert(p1.cands@ == p2.cands@);
        }
    }
    assert forall|s: Seq<int>| #[trigger] p1.compatible(s) <==> p2.compatible(s) by {
        if p1.compatible(s) {
            assert forall|r1: int, c1: int| in_range(r1, c1) implies if p2.value(r1, c1) != 0 {
                s[cell_index(r1, c1)] == #[trigger] p2.value(r1, c1)
            } else {
                p2.cand(r1, c1, #[trigger] s[cell_index(r1, c1)])
            } by {
                assert(p1.value(r1, c1) == p2.value(r1, c1));
                if p1.value(r1, c1) == 0 {
                    assert(p1.cand(r1, c1, s[cell_index(r1, c1)]));
                }
            }
        }
        if p2.compatible(s) {
            assert forall|r1: int, c1: int| in_range(r1, c1) implies if p1.value(r1, c1) != 0 {
                s[cell_index(r1, c1)] == #[trigger] p1.value(r1, c1)
            } else {
                p1.cand(r1, c1, #[trigger] s[cell_index(r1, c1)])
            } by {
                assert(p1.value(r1, c1) == p2.value(r1, c1));
                if p2.value(r1, c1) == 0 {
                    assert(p2.cand(r1, c1, s[cell_index(r1, c1)]));
                }
            }
        }
    }
    if p1.solvable() {
        let s = choose|s: Seq<int>| p1.compatible(s);
        assert(p2.compatible(s));
    }
    if p2.solvable() {
        let s = choose|s: Seq<int>| p2.compatible(s);
        assert(p1.compatible(s));
    }
}

/// A complete, well formed board that refines `pre` holds a solution of
/// `pre` when `pre` is consistent.
pub proof fn lemma_complete_compatible(pre: &Board, b: &Board)
    requires
        pre.wf(),
        b.wf(),
        b.complete(),
        b.refines(pre),
        pre.consistent() ==> b.consistent(),
    ensures
        pre.consistent() ==> pre.compatible(b.grid()),
{
    if pre.consistent() {
        let s = b.grid();
        assert forall|r: int, c: int| in_range(r, c) implies #[trigger] s[cell_index(r, c)] == b.value(r, c) by {}
        assert forall|r: int, c: int| in_range(r, c) implies is_digit(#[trigger] s[cell_index(r, c)]) by {
            assert(b.value(r, c) != 0);
        }
        assert forall|r1: int, c1: int, r2: int, c2: int|
            in_range(r1, c1) && in_range(r2, c2) && peers(r1, c1, r2, c2) implies #[trigger] s[cell_index(r1, c1)]
                != #[trigger] s[cell_index(r2, c2)] by {
            assert(b.value(r1, c1) != 0);
            assert(b.value(r1, c1) != b.value(r2, c2));
        }
        assert forall|r: int, c: int| in_range(r, c) implies if pre.value(r, c) != 0 {
            s[cell_index(r, c)] == #[trigger] pre.value(r, c)
        } else {
            pre.cand(r, c, #[trigger] s[cell_index(r, c)])
        } by {
            assert(b.value(r, c) != 0);
        }
    }
}

} // verus!
