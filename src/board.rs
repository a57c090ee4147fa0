use vstd::prelude::*;

verus! {

/// True for a row or column index of the grid.
pub open spec fn in_range(r: int, c: int) -> bool {
    0 <= r < 9 && 0 <= c < 9
}

/// True for a Sudoku digit.
pub open spec fn is_digit(d: int) -> bool {
    1 <= d <= 9
}

/// Two distinct cells that share a row, a column or a 3x3 block.
pub open spec fn peers(r1: int, c1: int, r2: int, c2: int) -> bool {
    &&& (r1 != r2 || c1 != c2)
    &&& (r1 == r2 || c1 == c2 || (r1 / 3 == r2 / 3 && c1 / 3 == c2 / 3))
}

/// Position of cell `(r, c)` in the row-major value grid.
pub open spec fn cell_index(r: int, c: int) -> int {
    9 * r + c
}

/// Position of candidate `d` of cell `(r, c)` in the flat candidate grid.
pub open spec fn cand_index(r: int, c: int, d: int) -> int {
    81 * r + 9 * c + d - 1
}

/// Number of nonzero entries among the first `n` of `s`.
pub open spec fn count_nonzero(s: Seq<u8>, n: int) -> int
    decreases n,
{
    if n <= 0 {
        0
    } else {
        count_nonzero(s, n - 1) + if s[n - 1] != 0 { 1int } else { 0int }
    }
}

/// Number of `true` entries among the first `n` of `s`.
pub open spec fn count_true(s: Seq<bool>, n: int) -> int
    decreases n,
{
    if n <= 0 {
        0
    } else {
        count_true(s, n - 1) + if s[n - 1] { 1int } else { 0int }
    }
}

/// Distinct cells or digits have distinct candidate positions.
pub proof fn lemma_cand_index_unique(r1: int, c1: int, d1: int, r2: int, c2: int, d2: int)
    requires
        in_range(r1, c1),
        in_range(r2, c2),
        is_digit(d1),
        is_digit(d2),
    ensures
        0 <= cand_index(r1, c1, d1) < 729,
        cand_index(r1, c1, d1) == cand_index(r2, c2, d2) <==> (r1 == r2 && c1 == c2 && d1 == d2),
{
}

/// Every candidate position belongs to some cell and digit.
pub proof fn lemma_cand_index_onto(k: int)
    requires
        0 <= k < 729,
    ensures
        in_range(k / 81, (k % 81) / 9),
        is_digit(k % 9 + 1),
        k == cand_index(k / 81, (k % 81) / 9, k % 9 + 1),
{
}

/// Clearing flags never adds to the count, and clearing a set one lowers it.
pub proof fn lemma_count_true_mono(a: Seq<bool>, b: Seq<bool>, n: int)
    requires
        0 <= n <= a.len(),
        n <= b.len(),
        forall|k: int| 0 <= k < n && #[trigger] b[k] ==> a[k],
    ensures
        count_true(b, n) <= count_true(a, n),
        (exists|k: int| 0 <= k < n && a[k] && !b[k]) ==> count_true(b, n) < count_true(a, n),
    decreases n,
{
    if n > 0 {
        lemma_count_true_mono(a, b, n - 1);
        if exists|k: int| 0 <= k < n && a[k] && !b[k] {
            let k = choose|k: int| 0 <= k < n && a[k] && !b[k];
            if k < n - 1 {
                assert(exists|k: int| 0 <= k < n - 1 && a[k] && !b[k]);
            }
        }
    }
}

/// The count of set flags lies between 0 and `n`.
pub proof fn lemma_count_true_bounds(s: Seq<bool>, n: int)
    requires
        0 <= n <= s.len(),
    ensures
        0 <= count_true(s, n) <= n,
    decreases n,
{
    if n > 0 {
        lemma_count_true_bounds(s, n - 1);
    }
}

/// Solving one more entry raises the count of nonzero entries by one.
pub proof fn lemma_count_nonzero_update(s: Seq<u8>, i: int, v: u8, n: int)
    requires
        0 <= i < s.len(),
        0 <= n <= s.len(),
        s[i] == 0,
        v != 0,
    ensures
        count_nonzero(s.update(i, v), n) == count_nonzero(s, n) + if i < n { 1int } else { 0int },
    decreases n,
{
    if n > 0 {
        lemma_count_nonzero_update(s, i, v, n - 1);
    }
}

/// The count of nonzero entries is at most `n`, and equals `n` exactly when
/// all of them are nonzero; it is 0 when all are zero.
pub proof fn lemma_count_nonzero_full(s: Seq<u8>, n: int)
    requires
        0 <= n <= s.len(),
    ensures
        0 <= count_nonzero(s, n) <= n,
        count_nonzero(s, n) == n <==> (forall|k: int| 0 <= k < n ==> s[k] != 0),
        (forall|k: int| 0 <= k < n ==> s[k] == 0) ==> count_nonzero(s, n) == 0,
    decreases n,
{
    if n > 0 {
        lemma_count_nonzero_full(s, n - 1);
        if count_nonzero(s, n) == n {
            assert forall|k: int| 0 <= k < n implies s[k] != 0 by {
                if k < n - 1 {
                }
            }
        }
    }
}

/// An index within three of the start of the block of `a` lies in that block.
pub proof fn lemma_same_block(a: int, b: int)
    requires
        0 <= a,
        a - a % 3 <= b < a - a % 3 + 3,
    ensures
        b / 3 == a / 3,
{
}

/// Cell `(r, c)` occurs in the list `s`.
pub open spec fn lists_cell(s: Seq<(usize, usize)>, r: int, c: int) -> bool {
    exists|i: int| 0 <= i < s.len() && s[i] == (r as usize, c as usize)
}

/// The cells that solving `(r, c)` touches: the whole row, the whole
/// column and the rest of the block. Each listed cell is `(r, c)` itself or
/// a peer of it, and every peer is listed.
pub fn get_cells_to_clear(r: usize, c: usize) -> (res: Vec<(usize, usize)>)
    requires
        r < 9,
        c < 9,
    ensures
        forall|i: int|
            0 <= i < res@.len() ==> {
                let (r2, c2) = #[trigger] res@[i];
                in_range(r2 as int, c2 as int) && (peers(r as int, c as int, r2 as int, c2 as int) || (r2
                    == r && c2 == c))
            },
        forall|r2: int, c2: int|
            in_range(r2, c2) && peers(r as int, c as int, r2, c2) ==> #[trigger] lists_cell(res@, r2, c2),
{
    let mut res: Vec<(usize, usize)> = Vec::new();
    let mut rr: usize = 0;
    while rr < 9
        invariant
            rr <= 9,
            res@.len() == rr,
            forall|i: int| 0 <= i < rr ==> #[trigger] res@[i] == (i as usize, c),
        decreases 9 - rr,
    {
        res.push((rr, c));
        rr += 1;
    }
    let mut cc: usize = 0;
    while cc < 9
        invariant
            cc <= 9,
            res@.len() == 9 + cc,
            forall|i: int| 0 <= i < 9 ==> #[trigger] res@[i] == (i as usize, c),
            forall|i: int| 0 <= i < cc ==> #[trigger] res@[9 + i] == (r, i as usize),
        decreases 9 - cc,
    {
        res.push((r, cc));
        cc += 1;
    }
    let rs: usize = r - r % 3;
    let cs: usize = c - c % 3;
    let ghost base = res@;
    let mut rr: usize = rs;
    while rr < rs + 3
        invariant
            rs == r - r % 3,
            cs == c - c % 3,
            rs <= rr <= rs + 3,
            r < 9,
            c < 9,
            res@.len() >= 18,
            res@.subrange(0, 18) == base,
            forall|i: int| 0 <= i < 9 ==> #[trigger] base[i] == (i as usize, c),
            forall|i: int| 0 <= i < 9 ==> #[trigger] base[9 + i] == (r, i as usize),
            forall|i: int|
                18 <= i < res@.len() ==> {
                    let (r2, c2) = #[trigger] res@[i];
                    rs <= r2 < rs + 3 && cs <= c2 < cs + 3
                },
            forall|r2: int, c2: int|
                rs <= r2 < rr && cs <= c2 < cs + 3 && r2 != r && c2 != c ==> #[trigger] lists_cell(res@, r2, c2),
        decreases rs + 3 - rr,
    {
        if rr != r {
            let mut cc: usize = cs;
            while cc < cs + 3
                invariant
                    rs == r - r % 3,
                    cs == c - c % 3,
                    rs <= rr < rs + 3,
                    cs <= cc <= cs + 3,
                    rr != r,
                    r < 9,
                    c < 9,
                    res@.len() >= 18,
                    res@.subrange(0, 18) == base,
                    forall|i: int|
                        18 <= i < res@.len() ==> {
                            let (r2, c2) = #[trigger] res@[i];
                            rs <= r2 < rs + 3 && cs <= c2 < cs + 3
                        },
                    forall|r2: int, c2: int|
                        rs <= r2 < rr && cs <= c2 < cs + 3 && r2 != r && c2 != c ==> #[trigger] lists_cell(res@, r2, c2),
                    forall|c2: int|
                        cs <= c2 < cc && c2 != c ==> #[trigger] lists_cell(res@, rr as int, c2),
                decreases cs + 3 - cc,
            {
                if cc != c {
                    let ghost before = res@;
                    res.push((rr, cc));
                    assert(res@.subrange(0, 18) =~= base);
                    assert forall|r2: int, c2: int|
                        rs <= r2 < rr && cs <= c2 < cs + 3 && r2 != r && c2 != c implies #[trigger] lists_cell(res@, r2, c2) by {
                        assert(lists_cell(before, r2, c2));
                        let i = choose|i: int|
                            0 <= i < before.len() && before[i] == (r2 as usize, c2 as usize);
                        assert(res@[i] == before[i]);
                    }
                    assert forall|c2: int| cs <= c2 < cc + 1 && c2 != c implies #[trigger] lists_cell(res@, rr as int, c2) by {
                        if c2 < cc {
                            assert(lists_cell(before, rr as int, c2));
                            let i = choose|i: int|
                                0 <= i < before.len() && before[i] == (rr, c2 as usize);
                            assert(res@[i] == before[i]);
                        } else {
                            assert(res@[before.len() as int] == (rr, c2 as usize));
                        }
                    }
                }
                cc += 1;
            }
        }
        rr += 1;
    }
    proof {
        assert forall|i: int| 0 <= i < res@.len() implies {
            let (r2, c2) = #[trigger] res@[i];
            in_range(r2 as int, c2 as int) && (peers(r as int, c as int, r2 as int, c2 as int) || (r2 == r
                && c2 == c))
        } by {
            if i < 9 {
                assert(res@[i] == base[i]);
            } else if i < 18 {
                assert(res@[i] == base[9 + (i - 9)]);
            } else {
                let (r2, c2) = res@[i];
                lemma_same_block(r as int, r2 as int);
                lemma_same_block(c as int, c2 as int);
            }
        }
        assert forall|r2: int, c2: int| in_range(r2, c2) && peers(r as int, c as int, r2, c2) implies #[trigger] lists_cell(res@, r2, c2) by {
            if c2 == c {
                assert(res@[r2] == base[r2]);
                assert(res@[r2] == (r2 as usize, c2 as usize));
            } else if r2 == r {
                assert(res@[9 + c2] == base[9 + c2]);
                assert(res@[9 + c2] == (r2 as usize, c2 as usize));
            }
        }
    }
    res
}

/// Row of the top-left cell of block `b` (blocks numbered row-major).
pub open spec fn block_row(b: int) -> int {
    3 * (b / 3)
}

/// Column of the top-left cell of block `b`.
pub open spec fn block_col(b: int) -> int {
    3 * (b % 3)
}

/// Cell `(r, c)` lies in block `b`.
pub open spec fn in_block(b: int, r: int, c: int) -> bool {
    block_row(b) <= r < block_row(b) + 3 && block_col(b) <= c < block_col(b) + 3
}

/// The nine cells of block `b` (0 to 8, row-major), row-major.
pub fn get_cells_of_block(b: usize) -> (res: Vec<(usize, usize)>)
    requires
        b < 9,
    ensures
        res@.len() == 9,
        forall|i: int|
            0 <= i < 9 ==> #[trigger] res@[i] == ((block_row(b as int) + i / 3) as usize, (block_col(b as int) + i
                % 3) as usize),
{
    let r = b / 3 * 3;
    let c = b % 3 * 3;
    let mut res: Vec<(usize, usize)> = Vec::new();
    let mut i: usize = 0;
    while i < 9
        invariant
            b < 9,
            r == block_row(b as int),
            c == block_col(b as int),
            i <= 9,
            res@.len() == i,
            forall|k: int| 0 <= k < i ==> #[trigger] res@[k] == ((r + k / 3) as usize, (c + k % 3) as usize),
        decreases 9 - i,
    {
        res.push((r + i / 3, c + i % 3));
        i += 1;
    }
    res
}

/// Why a board could not be read or solved.
#[derive(Debug, Clone, Copy, PartialEq, Eq, Structural)]
pub enum SolveError {
    /// The text holds a character that is not a digit, or not 81 digits.
    Parse,
    /// An unsolved cell has no candidate left.
    Deduction,
    /// No candidate of the branching cell leads to a solution.
    Exhausted,
}

/// A Sudoku board: the solved value of every cell (0 while unsolved) and,
/// for every cell and digit, whether the digit is still a candidate.
pub struct Board {
    /// Row-major solved values, 81 entries, 0 for an unsolved cell.
    pub values: Vec<u8>,
    /// Candidate flags, 729 entries: candidate `d` of cell `(r, c)` sits at
    /// `81 * r + 9 * c + d - 1`.
    pub cands: Vec<bool>,
    /// Number of solved cells.
    pub solved_count: usize,
}

impl Board {
    /// Solved value of cell `(r, c)`, 0 while unsolved.
    pub open spec fn value(&self, r: int, c: int) -> int {
        self.values@[cell_index(r, c)] as int
    }

    /// Whether digit `d` is still a candidate of cell `(r, c)`.
    pub open spec fn cand(&self, r: int, c: int, d: int) -> bool {
        self.cands@[cand_index(r, c, d)]
    }

    /// The board's internal invariant.
    pub open spec fn wf(&self) -> bool {
        &&& self.values@.len() == 81
        &&& self.cands@.len() == 729
        &&& forall|r: int, c: int| in_range(r, c) ==> 0 <= #[trigger] self.value(r, c) <= 9
        &&& self.solved_count as int == count_nonzero(self.values@, 81)
        // a solved cell lists no candidate
        &&& forall|r: int, c: int, d: int|
            in_range(r, c) && is_digit(d) && self.value(r, c) != 0 ==> !#[trigger] self.cand(r, c, d)
        // no cell lists the value of a solved peer
        &&& forall|r1: int, c1: int, r2: int, c2: int|
            in_range(r1, c1) && in_range(r2, c2) && peers(r1, c1, r2, c2) && self.value(r1, c1) != 0
                ==> !#[trigger] self.cand(r2, c2, self.value(r1, c1))
    }

    /// Every cell is solved.
    pub open spec fn complete(&self) -> bool {
        forall|r: int, c: int| in_range(r, c) ==> #[trigger] self.value(r, c) != 0
    }

    /// No two solved peers hold the same value.
    pub open spec fn consistent(&self) -> bool {
        forall|r1: int, c1: int, r2: int, c2: int|
            in_range(r1, c1) && in_range(r2, c2) && peers(r1, c1, r2, c2) && #[trigger] self.value(r1, c1)
                != 0 ==> self.value(r1, c1) != #[trigger] self.value(r2, c2)
    }

    /// The two boards hold the same values, candidates and count.
    pub open spec fn same_state(&self, other: &Board) -> bool {
        &&& self.values@ == other.values@
        &&& self.cands@ == other.cands@
        &&& self.solved_count == other.solved_count
    }

    /// Live candidates plus unsolved cells: every change made by a rule
    /// lowers it.
    pub open spec fn progress(&self) -> int {
        count_true(self.cands@, 729) + (81 - self.solved_count)
    }

    /// `post` is `pre` after solving cell `(r, c)` with `v`: nothing changes
    /// when the cell is already solved; otherwise the cell takes `v`, loses
    /// all its candidates, and every peer loses `v`.
    pub open spec fn solve_step(pre: &Board, post: &Board, r: int, c: int, v: int) -> bool {
        if pre.value(r, c) != 0 {
            post.same_state(pre)
        } else {
            &&& post.values@ == pre.values@.update(cell_index(r, c), v as u8)
            &&& post.solved_count == pre.solved_count + 1
            &&& post.cands@.len() == pre.cands@.len()
            &&& forall|r2: int, c2: int, d: int|
                in_range(r2, c2) && is_digit(d) ==> #[trigger] post.cand(r2, c2, d) == (pre.cand(r2, c2, d)
                    && !(r2 == r && c2 == c) && !(d == v && peers(r, c, r2, c2)))
        }
    }
}

impl Board {
    /// A board with every cell unsolved and every digit a candidate.
    pub fn new() -> (b: Board)
        ensures
            b.wf(),
            b.solved_count == 0,
            forall|r: int, c: int| in_range(r, c) ==> #[trigger] b.value(r, c) == 0,
            forall|r: int, c: int, d: int| in_range(r, c) && is_digit(d) ==> #[trigger] b.cand(r, c, d),
    {
        let mut values: Vec<u8> = Vec::new();
        let mut i: usize = 0;
        while i < 81
            invariant
                i <= 81,
                values@.len() == i,
                forall|k: int| 0 <= k < i ==> values@[k] == 0,
            decreases 81 - i,
        {
            values.push(0);
            i += 1;
        }
        let mut cands: Vec<bool> = Vec::new();
        let mut i: usize = 0;
        while i < 729
            invariant
                i <= 729,
                cands@.len() == i,
                forall|k: int| 0 <= k < i ==> cands@[k],
            decreases 729 - i,
        {
            cands.push(true);
            i += 1;
        }
        proof {
            lemma_count_nonzero_full(values@, 81);
        }
        let b = Board { values, cands, solved_count: 0 };
        assert forall|r: int, c: int, d: int| in_range(r, c) && is_digit(d) implies #[trigger] b.cand(r, c, d) by {
            lemma_cand_index_unique(r, c, d, r, c, d);
        }
        b
    }

    /// Whether every cell is solved.
    pub fn is_solved(&self) -> (r: bool)
        requires
            self.wf(),
        ensures
            r == (self.solved_count == 81),
            r == self.complete(),
    {
        proof {
            lemma_count_nonzero_full(self.values@, 81);
            if self.complete() {
                assert forall|k: int| 0 <= k < 81 implies self.values@[k] != 0 by {
                    assert(self.value(k / 9, k % 9) != 0);
                }
            }
        }
        self.solved_count == 81
    }

    /// Row `row` at `level`: the solved values for level 0, and for a digit
    /// `level` that digit where it is still a candidate and 0 elsewhere.
    pub fn get_row_level(&self, row: usize, level: usize) -> (res: Vec<usize>)
        requires
            self.wf(),
            row < 9,
            level <= 9,
        ensures
            res@.len() == 9,
            forall|c: int|
                0 <= c < 9 ==> #[trigger] res@[c] as int == if level == 0 {
                    self.value(row as int, c)
                } else if self.cand(row as int, c, level as int) {
                    level as int
                } else {
                    0
                },
    {
        let mut res: Vec<usize> = Vec::new();
        let mut c: usize = 0;
        while c < 9
            invariant
                self.wf(),
                row < 9,
                level <= 9,
                c <= 9,
                res@.len() == c,
                forall|k: int|
                    0 <= k < c ==> #[trigger] res@[k] as int == if level == 0 {
                        self.value(row as int, k)
                    } else if self.cand(row as int, k, level as int) {
                        level as int
                    } else {
                        0
                    },
            decreases 9 - c,
        {
            if level == 0 {
                res.push(self.values[9 * row + c] as usize);
            } else if self.cands[81 * row + 9 * c + level - 1] {
                res.push(level);
            } else {
                res.push(0);
            }
            c += 1;
        }
        res
    }

    /// Solves cell `(row, col)` with `val`: no-op when the cell is already
    /// solved; otherwise sets the value, counts it, clears the cell's own
    /// candidates and removes `val` from every peer.
    pub fn setsolved(&mut self, row: usize, col: usize, val: usize)
        requires
            old(self).wf(),
            row < 9,
            col < 9,
            1 <= val <= 9,
        ensures
            final(self).wf(),
            Board::solve_step(old(self), final(self), row as int, col as int, val as int),
    {
        if self.values[9 * row + col] != 0 {
            return;
        }
        let ghost pre = *self;
        self.values.set(9 * row + col, val as u8);
        proof {
            lemma_count_nonzero_update(pre.values@, cell_index(row as int, col as int), val as u8, 81);
            lemma_count_nonzero_full(pre.values@, 81);
            assert(pre.values@[cell_index(row as int, col as int)] == 0);
        }
        self.solved_count = self.solved_count + 1;
        let mut d: usize = 0;
        while d < 9
            invariant
                pre.wf(),
                row < 9,
                col < 9,
                d <= 9,
                self.cands@.len() == 729,
                self.values@ == pre.values@.update(cell_index(row as int, col as int), val as u8),
                self.solved_count == pre.solved_count + 1,
                pre.value(row as int, col as int) == 0,
                1 <= val <= 9,
                forall|r2: int, c2: int, dd: int|
                    in_range(r2, c2) && is_digit(dd) ==> #[trigger] self.cand(r2, c2, dd) == (pre.cand(r2, c2, dd)
                        && !(r2 == row && c2 == col && dd <= d)),
            decreases 9 - d,
        {
            let ghost prev = *self;
            self.cands.set(81 * row + 9 * col + d, false);
            assert forall|r2: int, c2: int, dd: int| in_range(r2, c2) && is_digit(dd) implies #[trigger] self.cand(r2, c2, dd) == (pre.cand(r2, c2, dd)
                && !(r2 == row && c2 == col && dd <= d + 1)) by {
                lemma_cand_index_unique(r2, c2, dd, row as int, col as int, d + 1);
                assert(prev.cand(r2, c2, dd) == (pre.cand(r2, c2, dd) && !(r2 == row && c2 == col && dd <= d)));
            }
            d += 1;
        }
        let cells = get_cells_to_clear(row, col);
        let mut i: usize = 0;
        while i < cells.len()
            invariant
                pre.wf(),
                row < 9,
                col < 9,
                1 <= val <= 9,
                i <= cells@.len(),
                self.cands@.len() == 729,
                self.values@ == pre.values@.update(cell_index(row as int, col as int), val as u8),
                self.solved_count == pre.solved_count + 1,
                pre.value(row as int, col as int) == 0,
                1 <= val <= 9,
                forall|j: int|
                    0 <= j < cells@.len() ==> {
                        let (r2, c2) = #[trigger] cells@[j];
                        in_range(r2 as int, c2 as int) && (peers(row as int, col as int, r2 as int, c2 as int) || (r2
                            == row && c2 == col))
                    },
                forall|r2: int, c2: int, dd: int|
                    in_range(r2, c2) && is_digit(dd) ==> #[trigger] self.cand(r2, c2, dd) == (pre.cand(r2, c2, dd)
                        && !(r2 == row && c2 == col) && !(dd == val && lists_cell(cells@.subrange(0, i as int), r2, c2))),
            decreases cells@.len() - i,
        {
            let (r2, c2) = cells[i];
            let ghost prev = *self;
            self.cands.set(81 * r2 + 9 * c2 + val - 1, false);
            assert forall|r3: int, c3: int, dd: int| in_range(r3, c3) && is_digit(dd) implies #[trigger] self.cand(r3, c3, dd) == (pre.cand(r3, c3, dd)
                && !(r3 == row && c3 == col) && !(dd == val && lists_cell(cells@.subrange(0, i + 1), r3, c3))) by {
                lemma_cand_index_unique(r3, c3, dd, r2 as int, c2 as int, val as int);
                assert(prev.cand(r3, c3, dd) == (pre.cand(r3, c3, dd) && !(r3 == row && c3 == col) && !(dd == val
                    && lists_cell(cells@.subrange(0, i as int), r3, c3))));
                let s0 = cells@.subrange(0, i as int);
                let s1 = cells@.subrange(0, i + 1);
                if lists_cell(s0, r3, c3) {
                    let j = choose|j: int| 0 <= j < s0.len() && s0[j] == (r3 as usize, c3 as usize);
                    assert(s1[j] == s0[j]);
                }
                if lists_cell(s1, r3, c3) && !(r3 == r2 && c3 == c2) {
                    let j = choose|j: int| 0 <= j < s1.len() && s1[j] == (r3 as usize, c3 as usize);
                    assert(s0[j] == s1[j]);
                }
                if r3 == r2 && c3 == c2 {
                    assert(s1[i as int] == (r3 as usize, c3 as usize));
                }
            }
            i += 1;
        }
        proof {
            assert(cells@.subrange(0, cells@.len() as int) == cells@);
            assert forall|r2: int, c2: int, dd: int| in_range(r2, c2) && is_digit(dd) implies #[trigger] self.cand(r2, c2, dd) == (pre.cand(r2, c2, dd)
                && !(r2 == row && c2 == col) && !(dd == val && peers(row as int, col as int, r2, c2))) by {
                if lists_cell(cells@, r2, c2) && !(r2 == row && c2 == col) {
                    let j = choose|j: int| 0 <= j < cells@.len() && cells@[j] == (r2 as usize, c2 as usize);
                    let _ = cells@[j];
                }
            }
            lemma_wf_after_solve(pre, *self, row as int, col as int, val as int);
        }
    }
}

/// Solving an unsolved cell keeps the board well formed.
proof fn lemma_wf_after_solve(pre: Board, post: Board, r: int, c: int, v: int)
    requires
        pre.wf(),
        in_range(r, c),
        is_digit(v),
        pre.value(r, c) == 0,
        Board::solve_step(&pre, &post, r, c, v),
    ensures
        post.wf(),
{
    assert forall|r1: int, c1: int| in_range(r1, c1) implies #[trigger] post.value(r1, c1) == if r1 == r && c1
        == c { v } else { pre.value(r1, c1) } by {
        if r1 != r || c1 != c {
            assert(cell_index(r1, c1) != cell_index(r, c));
        }
    }
    lemma_count_nonzero_update(pre.values@, cell_index(r, c), v as u8, 81);
}

} // verus!
