use vstd::prelude::*;
use crate::board::{in_range, is_digit, peers, cell_index, Board, SolveError};
use crate::grid::{lemma_clean_trans, lemma_row_has, lemma_col_has, lemma_refines_refl, lemma_refines_trans, lemma_solve_candidate};

verus! {

impl Board {
    /// `self` follows from `pre` by sound deductions: it is well formed,
    /// refines `pre`, every cell it solved clashes with no peer, it has not
    /// raised the progress measure, is consistent when
    /// `pre` was, and keeps every solution of `pre`.
    pub open spec fn deduced_from(&self, pre: &Board) -> bool {
        &&& self.wf()
        &&& self.refines(pre)
        &&& self.clean_from(pre)
        &&& self.progress() <= pre.progress()
        &&& pre.consistent() ==> self.consistent()
        &&& forall|s: Seq<int>| pre.compatible(s) ==> #[trigger] self.compatible(s)
    }

    /// Unsolved cell `(r, c)` has `d` as its only candidate.
    pub open spec fn naked_single(&self, r: int, c: int, d: int) -> bool {
        &&& self.value(r, c) == 0
        &&& self.cand(r, c, d)
        &&& forall|d2: int| is_digit(d2) && d2 != d ==> !#[trigger] self.cand(r, c, d2)
    }

    /// The candidates of cell `(r, c)` up to digit `n`, ascending.
    pub open spec fn cands_upto(&self, r: int, c: int, n: int) -> Seq<usize>
        decreases n,
    {
        if n <= 0 {
            Seq::empty()
        } else {
            self.cands_upto(r, c, n - 1) + if self.cand(r, c, n) {
                seq![n as usize]
            } else {
                Seq::empty()
            }
        }
    }

    /// The candidates of cell `(r, c)`, ascending.
    pub open spec fn cand_list(&self, r: int, c: int) -> Seq<usize> {
        self.cands_upto(r, c, 9)
    }

    /// Unsolved cell `(r, c)` has no candidate left.
    pub open spec fn dead_cell(&self, r: int, c: int) -> bool {
        &&& self.value(r, c) == 0
        &&& forall|d: int| is_digit(d) ==> !#[trigger] self.cand(r, c, d)
    }
}

impl Board {
    /// `d` is a candidate of `(r, c)` and of no other cell of row `r`.
    pub open spec fn row_single(&self, r: int, c: int, d: int) -> bool {
        &&& self.cand(r, c, d)
        &&& forall|c2: int| 0 <= c2 < 9 && c2 != c ==> !#[trigger] self.cand(r, c2, d)
    }

    /// `d` is a candidate of `(r, c)` and of no other cell of column `c`.
    pub open spec fn col_single(&self, r: int, c: int, d: int) -> bool {
        &&& self.cand(r, c, d)
        &&& forall|r2: int| 0 <= r2 < 9 && r2 != r ==> !#[trigger] self.cand(r2, c, d)
    }
}

/// Every solution puts a row's only holder of a digit there.
pub proof fn lemma_row_single_forced(b: &Board, r: int, c: int, d: int)
    requires
        b.wf(),
        in_range(r, c),
        is_digit(d),
        b.row_single(r, c, d),
    ensures
        forall|s: Seq<int>| b.compatible(s) ==> s[cell_index(r, c)] == d,
{
    assert forall|s: Seq<int>| b.compatible(s) implies s[cell_index(r, c)] == d by {
        lemma_row_has(s, r, d);
        let c1 = choose|c1: int| 0 <= c1 < 9 && s[cell_index(r, c1)] == d;
        assert(in_range(r, c1));
        if b.value(r, c1) != 0 {
            assert(b.value(r, c1) == d);
            assert(b.value(r, c) == 0);
            assert(peers(r, c1, r, c));
        } else {
            assert(b.cand(r, c1, s[cell_index(r, c1)]));
        }
    }
}

/// Every solution puts a column's only holder of a digit there.
pub proof fn lemma_col_single_forced(b: &Board, r: int, c: int, d: int)
    requires
        b.wf(),
        in_range(r, c),
        is_digit(d),
        b.col_single(r, c, d),
    ensures
        forall|s: Seq<int>| b.compatible(s) ==> s[cell_index(r, c)] == d,
{
    assert forall|s: Seq<int>| b.compatible(s) implies s[cell_index(r, c)] == d by {
        lemma_col_has(s, c, d);
        let r1 = choose|r1: int| 0 <= r1 < 9 && s[cell_index(r1, c)] == d;
        assert(in_range(r1, c));
        if b.value(r1, c) != 0 {
            assert(b.value(r1, c) == d);
            assert(b.value(r, c) == 0);
            assert(peers(r1, c, r, c));
        } else {
            assert(b.cand(r1, c, s[cell_index(r1, c)]));
        }
    }
}

/// On a solvable board, a row's only holder of a digit keeps the digit
/// through sound deductions: it is solved with it, or still the only holder.
pub proof fn lemma_row_single_kept(pre: &Board, mid: &Board, r: int, c: int, d: int)
    requires
        pre.wf(),
        mid.deduced_from(pre),
        pre.solvable(),
        in_range(r, c),
        is_digit(d),
        pre.row_single(r, c, d),
    ensures
        mid.value(r, c) != 0 ==> mid.value(r, c) == d,
        mid.value(r, c) == 0 ==> mid.row_single(r, c, d),
{
    lemma_row_single_forced(pre, r, c, d);
    let s = choose|s: Seq<int>| pre.compatible(s);
    assert(mid.compatible(s));
    assert(s[cell_index(r, c)] == d);
    if mid.value(r, c) == 0 {
        assert(mid.cand(r, c, s[cell_index(r, c)]));
        assert forall|c2: int| 0 <= c2 < 9 && c2 != c implies !#[trigger] mid.cand(r, c2, d) by {
            assert(!pre.cand(r, c2, d));
        }
    }
}

/// On a solvable board, a column's only holder of a digit keeps the digit
/// through sound deductions: it is solved with it, or still the only holder.
pub proof fn lemma_col_single_kept(pre: &Board, mid: &Board, r: int, c: int, d: int)
    requires
        pre.wf(),
        mid.deduced_from(pre),
        pre.solvable(),
        in_range(r, c),
        is_digit(d),
        pre.col_single(r, c, d),
    ensures
        mid.value(r, c) != 0 ==> mid.value(r, c) == d,
        mid.value(r, c) == 0 ==> mid.col_single(r, c, d),
{
    lemma_col_single_forced(pre, r, c, d);
    let s = choose|s: Seq<int>| pre.compatible(s);
    assert(mid.compatible(s));
    assert(s[cell_index(r, c)] == d);
    if mid.value(r, c) == 0 {
        assert(mid.cand(r, c, s[cell_index(r, c)]));
        assert forall|r2: int| 0 <= r2 < 9 && r2 != r implies !#[trigger] mid.cand(r2, c, d) by {
            assert(!pre.cand(r2, c, d));
        }
    }
}

/// Deductions chain.
pub proof fn lemma_deduced_trans(a: &Board, b: &Board, c: &Board)
    requires
        a.wf(),
        b.deduced_from(a),
        c.deduced_from(b),
    ensures
        c.deduced_from(a),
{
    lemma_refines_trans(a, b, c);
    lemma_clean_trans(a, b, c);
}

/// A board follows from itself.
pub proof fn lemma_deduced_refl(a: &Board)
    requires
        a.wf(),
    ensures
        a.deduced_from(a),
{
    lemma_refines_refl(a);
}

/// A board with a dead cell has no solution.
pub proof fn lemma_dead_unsolvable(b: &Board, r: int, c: int)
    requires
        b.wf(),
        in_range(r, c),
        b.dead_cell(r, c),
    ensures
        !b.solvable(),
{
    if b.solvable() {
        let s = choose|s: Seq<int>| b.compatible(s);
        assert(b.value(r, c) == 0);
        assert(is_digit(s[cell_index(r, c)]));
        assert(b.cand(r, c, s[cell_index(r, c)]));
    }
}

/// Solving with a candidate that every solution puts there is a deduction.
pub proof fn lemma_forced_solve(pre: &Board, mid: &Board, post: &Board, r: int, c: int, v: int)
    requires
        pre.wf(),
        mid.deduced_from(pre),
        post.wf(),
        in_range(r, c),
        is_digit(v),
        mid.cand(r, c, v),
        forall|s: Seq<int>| mid.compatible(s) ==> s[cell_index(r, c)] == v,
        Board::solve_step(mid, post, r, c, v),
    ensures
        post.deduced_from(pre),
        post.progress() < mid.progress(),
{
    assert(mid.value(r, c) == 0);
    lemma_solve_candidate(mid, post, r, c, v);
    lemma_refines_trans(pre, mid, post);
}

impl Board {
    /// The candidates of cell `(r, c)`, ascending.
    pub fn candidates(&self, r: usize, c: usize) -> (res: Vec<usize>)
        requires
            self.wf(),
            r < 9,
            c < 9,
        ensures
            forall|i: int| 0 <= i < res@.len() ==> is_digit(#[trigger] res@[i] as int) && self.cand(r as int, c as int, res@[i] as int),
            forall|i: int, j: int| 0 <= i < j < res@.len() ==> #[trigger] res@[i] < #[trigger] res@[j],
            forall|d: int| is_digit(d) && #[trigger] self.cand(r as int, c as int, d) ==> res@.contains(d as usize),
            res@ == self.cand_list(r as int, c as int),
    {
        let mut res: Vec<usize> = Vec::new();
        let mut d: usize = 1;
        while d <= 9
            invariant
                self.wf(),
                r < 9,
                c < 9,
                1 <= d <= 10,
                forall|i: int| 0 <= i < res@.len() ==> 1 <= #[trigger] res@[i] < d && self.cand(r as int, c as int, res@[i] as int),
                forall|i: int, j: int| 0 <= i < j < res@.len() ==> #[trigger] res@[i] < #[trigger] res@[j],
                forall|dd: int| 1 <= dd < d && #[trigger] self.cand(r as int, c as int, dd) ==> res@.contains(dd as usize),
                res@ == self.cands_upto(r as int, c as int, d - 1),
            decreases 10 - d,
        {
            if self.cands[81 * r + 9 * c + d - 1] {
                let ghost before = res@;
                res.push(d);
                assert(res@ == self.cands_upto(r as int, c as int, d as int));
                assert forall|dd: int| 1 <= dd < d + 1 && #[trigger] self.cand(r as int, c as int, dd) implies res@.contains(dd as usize) by {
                    if dd < d {
                        let i = choose|i: int| 0 <= i < before.len() && before[i] == dd as usize;
                        assert(res@[i] == before[i]);
                    } else {
                        assert(res@[before.len() as int] == dd as usize);
                    }
                }
            } else {
                assert(res@ =~= self.cands_upto(r as int, c as int, d as int));
            }
            d += 1;
        }
        res
    }

    /// Naked singles: every unsolved cell with a single candidate is solved
    /// with it, in row-major order. Fails when it meets an unsolved cell with
    /// no candidate, which no solution allows. Returns whether anything
    /// changed.
    #[verifier::spinoff_prover]
    #[verifier::rlimit(60)]
    pub fn check_cells(&mut self) -> (res: Result<bool, SolveError>)
        requires
            old(self).wf(),
        ensures
            final(self).deduced_from(old(self)),
            res == Ok::<bool, SolveError>(false) ==> final(self).same_state(old(self)),
            res == Ok::<bool, SolveError>(true) ==> final(self).progress() < old(self).progress(),
            res == Ok::<bool, SolveError>(false) <==> (!(exists|r: int, c: int, d: int|
                in_range(r, c) && #[trigger] old(self).naked_single(r, c, d)) && !(exists|r: int, c: int|
                in_range(r, c) && #[trigger] old(self).dead_cell(r, c))),
            (exists|r: int, c: int| in_range(r, c) && #[trigger] old(self).dead_cell(r, c)) ==> res is Err,
            res is Err ==> res == Err::<bool, SolveError>(SolveError::Deduction) && !old(self).solvable(),
            res is Ok ==> forall|r: int, c: int, d: int|
                in_range(r, c) && #[trigger] old(self).naked_single(r, c, d) ==> final(self).value(r, c) == d,
    {
        let ghost pre = *self;
        proof {
            lemma_deduced_refl(&pre);
        }
        if self.is_solved() {
            assert forall|r: int, c: int, d: int| in_range(r, c) implies !(#[trigger] pre.naked_single(r, c, d)
                || pre.dead_cell(r, c)) by {
                assert(pre.value(r, c) != 0);
            }
            return Ok(false);
        }
        let mut found = false;
        let mut i: usize = 0;
        while i < 81
            invariant
                pre.wf(),
                pre == *old(self),
                i <= 81,
                self.deduced_from(&pre),
                !found ==> self.same_state(&pre),
                found ==> self.progress() < pre.progress(),
                found ==> exists|r: int, c: int, d: int| in_range(r, c) && #[trigger] pre.naked_single(r, c, d),
                !found ==> forall|r: int, c: int, d: int|
                    in_range(r, c) && cell_index(r, c) < i ==> !(#[trigger] pre.naked_single(r, c, d) || pre.dead_cell(r, c)),
                forall|r: int, c: int| in_range(r, c) && cell_index(r, c) < i ==> !#[trigger] pre.dead_cell(r, c),
                forall|r: int, c: int, d: int|
                    in_range(r, c) && cell_index(r, c) < i && #[trigger] pre.naked_single(r, c, d) ==> self.value(r, c) == d,
                forall|r: int, c: int| in_range(r, c) && cell_index(r, c) >= i ==> #[trigger] self.value(r, c) == pre.value(r, c),
            decreases 81 - i,
        {
            let r = i / 9;
            let c = i % 9;
            assert(cell_index(r as int, c as int) == i);
            let ghost was_found = found;
            let ghost mid = *self;
            if self.values[i] == 0 {
                let v = self.candidates(r, c);
                if v.len() == 0 {
                    proof {
                        assert(self.dead_cell(r as int, c as int));
                        lemma_dead_unsolvable(self, r as int, c as int);
                        if found {
                            let (r1, c1, d1) = choose|r1: int, c1: int, d1: int| in_range(r1, c1) && #[trigger] pre.naked_single(r1, c1, d1);
                        }
                        if !found {
                            assert forall|d: int| is_digit(d) implies !#[trigger] pre.cand(r as int, c as int, d) by {
                                assert(!self.cand(r as int, c as int, d));
                            }
                            assert(pre.dead_cell(r as int, c as int));
                        }
                        assert(self.deduced_from(&pre));
                        if pre.solvable() {
                            let s = choose|s: Seq<int>| pre.compatible(s);
                            assert(self.compatible(s));
                        }
                    }
                    return Err(SolveError::Deduction);
                }
                if v.len() == 1 {
                    let d = v[0];
                    proof {
                        assert forall|d2: int| is_digit(d2) && d2 != d implies !#[trigger] mid.cand(r as int, c as int, d2) by {
                            if mid.cand(r as int, c as int, d2) {
                                assert(v@.contains(d2 as usize));
                            }
                        }
                        assert(mid.naked_single(r as int, c as int, d as int));
                        assert forall|s: Seq<int>| mid.compatible(s) implies s[cell_index(r as int, c as int)] == d by {
                            assert(in_range(r as int, c as int));
                            assert(mid.cand(r as int, c as int, s[cell_index(r as int, c as int)]));
                        }
                        assert(pre.cand(r as int, c as int, d as int));
                    }
                    self.setsolved(r, c, d);
                    proof {
                        lemma_forced_solve(&pre, &mid, self, r as int, c as int, d as int);
                        if !was_found {
                            assert forall|d2: int| is_digit(d2) && d2 != d implies !#[trigger] pre.cand(r as int, c as int, d2) by {
                                assert(!mid.cand(r as int, c as int, d2));
                            }
                            assert(pre.naked_single(r as int, c as int, d as int));
                        }
                    }
                    found = true;
                } else {
                    proof {
                        assert(v@[0] < v@[1]);
                        assert(pre.cand(r as int, c as int, v@[0] as int));
                        assert(mid.cand(r as int, c as int, v@[1] as int));
                        if !found {
                            assert forall|d: int| !#[trigger] pre.naked_single(r as int, c as int, d) by {
                                if pre.naked_single(r as int, c as int, d) {
                                    assert(v@[0] != d || v@[1] != d);
                                }
                            }
                        }
                    }
                }
            } else {
                proof {
                    if pre.value(r as int, c as int) == 0 {
                        assert(pre.cand(r as int, c as int, mid.value(r as int, c as int)));
                    }
                }
            }
            proof {
                assert forall|r2: int, c2: int| in_range(r2, c2) && cell_index(r2, c2) >= i + 1 implies #[trigger] self.value(r2, c2) == pre.value(r2, c2) by {
                    assert(cell_index(r2, c2) != cell_index(r as int, c as int));
                    assert(mid.value(r2, c2) == pre.value(r2, c2));
                }
                assert forall|r2: int, c2: int, d: int|
                    in_range(r2, c2) && cell_index(r2, c2) < i + 1 && #[trigger] pre.naked_single(r2, c2, d) implies self.value(r2, c2) == d by {
                    if cell_index(r2, c2) == i {
                        assert(r2 == r && c2 == c);
                        assert(mid.value(r2, c2) == 0);
                        assert(pre.cand(r2, c2, d));
                    } else {
                        assert(mid.value(r2, c2) == d);
                    }
                }
                assert forall|r2: int, c2: int| in_range(r2, c2) && cell_index(r2, c2) < i + 1 implies !#[trigger] pre.dead_cell(r2, c2) by {
                    if cell_index(r2, c2) == i {
                        assert(r2 == r && c2 == c);
                    }
                }
                if !found {
                    assert forall|r2: int, c2: int, d: int| in_range(r2, c2) && cell_index(r2, c2) < i + 1 implies !(#[trigger] pre.naked_single(r2, c2, d) || pre.dead_cell(r2, c2)) by {
                        if cell_index(r2, c2) == i {
                            assert(r2 == r && c2 == c);
                        }
                    }
                }
            }
            i += 1;
        }
        Ok(found)
    }
}

impl Board {
    /// The only cell of row `r` that lists `d`, if there is exactly one.
    fn single_in_row(&self, r: usize, d: usize) -> (res: Option<usize>)
        requires
            self.wf(),
            r < 9,
            is_digit(d as int),
        ensures
            res matches Some(c) ==> c < 9 && self.row_single(r as int, c as int, d as int),
            res is None ==> forall|c: int| 0 <= c < 9 ==> !#[trigger] self.row_single(r as int, c, d as int),
    {
        let mut n: usize = 0;
        let mut last: usize = 0;
        let mut c: usize = 0;
        while c < 9
            invariant
                self.wf(),
                r < 9,
                is_digit(d as int),
                c <= 9,
                n <= c,
                n == 0 ==> forall|c2: int| 0 <= c2 < c ==> !#[trigger] self.cand(r as int, c2, d as int),
                n >= 1 ==> last < c && self.cand(r as int, last as int, d as int),
                n == 1 ==> forall|c2: int| 0 <= c2 < c && c2 != last ==> !#[trigger] self.cand(r as int, c2, d as int),
                n >= 2 ==> exists|c2: int| 0 <= c2 < c && c2 != last && #[trigger] self.cand(r as int, c2, d as int),
            decreases 9 - c,
        {
            if self.cands[81 * r + 9 * c + d - 1] {
                proof {
                    if n >= 1 {
                        assert(self.cand(r as int, last as int, d as int));
                    }
                }
                n += 1;
                last = c;
            }
            c += 1;
        }
        if n == 1 {
            Some(last)
        } else {
            proof {
                if n >= 2 {
                    let c2 = choose|c2: int| 0 <= c2 < 9 && c2 != last && #[trigger] self.cand(r as int, c2, d as int);
                    assert forall|c: int| 0 <= c < 9 implies !#[trigger] self.row_single(r as int, c, d as int) by {
                        if c != c2 {
                            assert(self.cand(r as int, c2, d as int));
                        } else {
                            assert(self.cand(r as int, last as int, d as int));
                        }
                    }
                }
            }
            None
        }
    }

    /// The only cell of column `c` that lists `d`, if there is exactly one.
    fn single_in_col(&self, c: usize, d: usize) -> (res: Option<usize>)
        requires
            self.wf(),
            c < 9,
            is_digit(d as int),
        ensures
            res matches Some(r) ==> r < 9 && self.col_single(r as int, c as int, d as int),
            res is None ==> forall|r: int| 0 <= r < 9 ==> !#[trigger] self.col_single(r, c as int, d as int),
    {
        let mut n: usize = 0;
        let mut last: usize = 0;
        let mut r: usize = 0;
        while r < 9
            invariant
                self.wf(),
                c < 9,
                is_digit(d as int),
                r <= 9,
                n <= r,
                n == 0 ==> forall|r2: int| 0 <= r2 < r ==> !#[trigger] self.cand(r2, c as int, d as int),
                n >= 1 ==> last < r && self.cand(last as int, c as int, d as int),
                n == 1 ==> forall|r2: int| 0 <= r2 < r && r2 != last ==> !#[trigger] self.cand(r2, c as int, d as int),
                n >= 2 ==> exists|r2: int| 0 <= r2 < r && r2 != last && #[trigger] self.cand(r2, c as int, d as int),
            decreases 9 - r,
        {
            if self.cands[81 * r + 9 * c + d - 1] {
                proof {
                    if n >= 1 {
                        assert(self.cand(last as int, c as int, d as int));
                    }
                }
                n += 1;
                last = r;
            }
            r += 1;
        }
        if n == 1 {
            Some(last)
        } else {
            proof {
                if n >= 2 {
                    let r2 = choose|r2: int| 0 <= r2 < 9 && r2 != last && #[trigger] self.cand(r2, c as int, d as int);
                    assert forall|r: int| 0 <= r < 9 implies !#[trigger] self.col_single(r, c as int, d as int) by {
                        if r != r2 {
                            assert(self.cand(r2, c as int, d as int));
                        } else {
                            assert(self.cand(last as int, c as int, d as int));
                        }
                    }
                }
            }
            None
        }
    }

    /// Hidden singles by row: for each row and digit, in that order, a digit
    /// that only one cell of the row lists is solved there. Returns whether
    /// anything changed.
    #[verifier::spinoff_prover]
    #[verifier::rlimit(60)]
    pub fn check_rows(&mut self) -> (found: bool)
        requires
            old(self).wf(),
        ensures
            final(self).deduced_from(old(self)),
            !found ==> final(self).same_state(old(self)),
            found ==> final(self).progress() < old(self).progress(),
            found == exists|r: int, c: int, d: int| in_range(r, c) && is_digit(d) && #[trigger] old(self).row_single(r, c, d),
            old(self).solvable() ==> forall|r: int, c: int, d: int|
                in_range(r, c) && is_digit(d) && #[trigger] old(self).row_single(r, c, d) ==> final(self).value(r, c) == d,
    {
        let ghost pre = *self;
        proof {
            lemma_deduced_refl(&pre);
        }
        if self.is_solved() {
            assert forall|r: int, c: int, d: int| in_range(r, c) && is_digit(d) implies !#[trigger] pre.row_single(r, c, d) by {
                assert(pre.value(r, c) != 0);
            }
            return false;
        }
        let mut found = false;
        let mut i: usize = 0;
        while i < 81
            invariant
                pre.wf(),
                pre == *old(self),
                i <= 81,
                self.deduced_from(&pre),
                !found ==> self.same_state(&pre),
                found ==> self.progress() < pre.progress(),
                found ==> exists|r: int, c: int, d: int| in_range(r, c) && is_digit(d) && #[trigger] pre.row_single(r, c, d),
                !found ==> forall|r: int, c: int, d: int|
                    in_range(r, c) && is_digit(d) && 9 * r + d - 1 < i ==> !#[trigger] pre.row_single(r, c, d),
                pre.solvable() ==> forall|r: int, c: int, d: int|
                    in_range(r, c) && is_digit(d) && 9 * r + d - 1 < i && #[trigger] pre.row_single(r, c, d) ==> self.value(r, c) == d,
            decreases 81 - i,
        {
            let r = i / 9;
            let d = i % 9 + 1;
            let ghost mid = *self;
            let ghost was_found = found;
            match self.single_in_row(r, d) {
                Some(c) => {
                    proof {
                        lemma_row_single_forced(&mid, r as int, c as int, d as int);
                        assert(pre.cand(r as int, c as int, d as int));
                        if !was_found {
                            assert forall|c2: int| 0 <= c2 < 9 && c2 != c implies !#[trigger] pre.cand(r as int, c2, d as int) by {
                                assert(!mid.cand(r as int, c2, d as int));
                            }
                            assert(pre.row_single(r as int, c as int, d as int));
                        }
                    }
                    self.setsolved(r, c, d);
                    proof {
                        lemma_forced_solve(&pre, &mid, self, r as int, c as int, d as int);
                    }
                    found = true;
                },
                None => {
                    proof {
                        if !found {
                            assert forall|r2: int, c: int, d2: int|
                                in_range(r2, c) && is_digit(d2) && 9 * r2 + d2 - 1 < i + 1 implies !#[trigger] pre.row_single(r2, c, d2) by {
                                if 9 * r2 + d2 - 1 == i {
                                    assert(r2 == r && d2 == d);
                                    assert(!mid.row_single(r2, c, d2));
                                    if pre.row_single(r2, c, d2) {
                                        assert forall|c2: int| 0 <= c2 < 9 && c2 != c implies !#[trigger] mid.cand(r2, c2, d2) by {
                                            assert(!pre.cand(r2, c2, d2));
                                        }
                                    }
                                }
                            }
                        }
                    }
                },
            }
            proof {
                if pre.solvable() {
                    assert forall|r2: int, c2: int, d2: int|
                        in_range(r2, c2) && is_digit(d2) && 9 * r2 + d2 - 1 < i + 1 && #[trigger] pre.row_single(r2, c2, d2) implies self.value(r2, c2) == d2 by {
                        lemma_row_single_kept(&pre, &mid, r2, c2, d2);
                        if 9 * r2 + d2 - 1 == i {
                            if mid.value(r2, c2) == 0 {
                                assert(mid.row_single(r2, c2, d2));
                            }
                        } else {
                            assert(mid.value(r2, c2) == d2);
                        }
                        if mid.value(r2, c2) != 0 {
                            assert(self.value(r2, c2) == mid.value(r2, c2));
                        }
                    }
                }
            }
            i += 1;
        }
        proof {
            if !found {
                assert forall|r: int, c: int, d: int| in_range(r, c) && is_digit(d) implies !#[trigger] pre.row_single(r, c, d) by {
                    assert(9 * r + d - 1 < 81);
                }
            }
        }
        found
    }

    /// Hidden singles by column: for each column and digit, in that order, a digit
    /// that only one cell of the column lists is solved there. Returns whether
    /// anything changed.
    #[verifier::spinoff_prover]
    #[verifier::rlimit(60)]
    pub fn check_cols(&mut self) -> (found: bool)
        requires
            old(self).wf(),
        ensures
            final(self).deduced_from(old(self)),
            !found ==> final(self).same_state(old(self)),
            found ==> final(self).progress() < old(self).progress(),
            found == exists|r: int, c: int, d: int| in_range(r, c) && is_digit(d) && #[trigger] old(self).col_single(r, c, d),
            old(self).solvable() ==> forall|r: int, c: int, d: int|
                in_range(r, c) && is_digit(d) && #[trigger] old(self).col_single(r, c, d) ==> final(self).value(r, c) == d,
    {
        let ghost pre = *self;
        proof {
            lemma_deduced_refl(&pre);
        }
        if self.is_solved() {
            assert forall|r: int, c: int, d: int| in_range(r, c) && is_digit(d) implies !#[trigger] pre.col_single(r, c, d) by {
                assert(pre.value(r, c) != 0);
            }
            return false;
        }
        let mut found = false;
        let mut i: usize = 0;
        while i < 81
            invariant
                pre.wf(),
                pre == *old(self),
                i <= 81,
                self.deduced_from(&pre),
                !found ==> self.same_state(&pre),
                found ==> self.progress() < pre.progress(),
                found ==> exists|r: int, c: int, d: int| in_range(r, c) && is_digit(d) && #[trigger] pre.col_single(r, c, d),
                !found ==> forall|r: int, c: int, d: int|
                    in_range(r, c) && is_digit(d) && 9 * c + d - 1 < i ==> !#[trigger] pre.col_single(r, c, d),
                pre.solvable() ==> forall|r: int, c: int, d: int|
                    in_range(r, c) && is_digit(d) && 9 * c + d - 1 < i && #[trigger] pre.col_single(r, c, d) ==> self.value(r, c) == d,
            decreases 81 - i,
        {
            let c = i / 9;
            let d = i % 9 + 1;
            let ghost mid = *self;
            let ghost was_found = found;
            match self.single_in_col(c, d) {
                Some(r) => {
                    proof {
                        lemma_col_single_forced(&mid, r as int, c as int, d as int);
                        assert(pre.cand(r as int, c as int, d as int));
                        if !was_found {
                            assert forall|r2: int| 0 <= r2 < 9 && r2 != r implies !#[trigger] pre.cand(r2, c as int, d as int) by {
                                assert(!mid.cand(r2, c as int, d as int));
                            }
                            assert(pre.col_single(r as int, c as int, d as int));
                        }
                    }
                    self.setsolved(r, c, d);
                    proof {
                        lemma_forced_solve(&pre, &mid, self, r as int, c as int, d as int);
                    }
                    found = true;
                },
                None => {
                    proof {
                        if !found {
                            assert forall|r: int, c2: int, d2: int|
                                in_range(r, c2) && is_digit(d2) && 9 * c2 + d2 - 1 < i + 1 implies !#[trigger] pre.col_single(r, c2, d2) by {
                                if 9 * c2 + d2 - 1 == i {
                                    assert(c2 == c && d2 == d);
                                    assert(!mid.col_single(r, c2, d2));
                                    if pre.col_single(r, c2, d2) {
                                        assert forall|r2: int| 0 <= r2 < 9 && r2 != r implies !#[trigger] mid.cand(r2, c2, d2) by {
                                            assert(!pre.cand(r2, c2, d2));
                                        }
                                    }
                                }
                            }
                        }
                    }
                },
            }
            proof {
                if pre.solvable() {
                    assert forall|r2: int, c2: int, d2: int|
                        in_range(r2, c2) && is_digit(d2) && 9 * c2 + d2 - 1 < i + 1 && #[trigger] pre.col_single(r2, c2, d2) implies self.value(r2, c2) == d2 by {
                        lemma_col_single_kept(&pre, &mid, r2, c2, d2);
                        if 9 * c2 + d2 - 1 == i {
                            if mid.value(r2, c2) == 0 {
                                assert(mid.col_single(r2, c2, d2));
                            }
                        } else {
                            assert(mid.value(r2, c2) == d2);
                        }
                        if mid.value(r2, c2) != 0 {
                            assert(self.value(r2, c2) == mid.value(r2, c2));
                        }
                    }
                }
            }
            i += 1;
        }
        proof {
            if !found {
                assert forall|r: int, c: int, d: int| in_range(r, c) && is_digit(d) implies !#[trigger] pre.col_single(r, c, d) by {
                    assert(9 * c + d - 1 < 81);
                }
            }
        }
        found
    }
}

} // verus!
