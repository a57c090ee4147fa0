use vstd::prelude::*;
use vstd::set_lib::{set_int_range, lemma_int_range, lemma_len_subset};
use crate::board::{
    in_range, is_digit, peers, cell_index, cand_index, Board, lemma_cand_index_onto,
    lemma_cand_index_unique, lemma_count_true_mono, count_true,
};

verus! {

/// `s` is a filled-in grid, row-major: every cell holds a digit and no two
/// peers hold the same digit.
pub open spec fn is_solution(s: Seq<int>) -> bool {
    &&& s.len() == 81
    &&& forall|r: int, c: int| in_range(r, c) ==> is_digit(#[trigger] s[cell_index(r, c)])
    &&& forall|r1: int, c1: int, r2: int, c2: int|
        in_range(r1, c1) && in_range(r2, c2) && peers(r1, c1, r2, c2) ==> #[trigger] s[cell_index(r1, c1)]
            != #[trigger] s[cell_index(r2, c2)]
}

impl Board {
    /// `s` is a solution that keeps every solved cell of the board and puts a
    /// candidate in every unsolved one.
    pub open spec fn compatible(&self, s: Seq<int>) -> bool {
        &&& is_solution(s)
        &&& forall|r: int, c: int|
            in_range(r, c) ==> if self.value(r, c) != 0 {
                s[cell_index(r, c)] == #[trigger] self.value(r, c)
            } else {
                self.cand(r, c, #[trigger] s[cell_index(r, c)])
            }
    }

    /// The board has a solution that keeps its solved cells and candidates.
    pub open spec fn solvable(&self) -> bool {
        exists|s: Seq<int>| self.compatible(s)
    }

    /// Every cell solved since `pre` holds a value that none of its peers
    /// holds.
    pub open spec fn clean_from(&self, pre: &Board) -> bool {
        forall|r1: int, c1: int, r2: int, c2: int|
            in_range(r1, c1) && in_range(r2, c2) && peers(r1, c1, r2, c2) && pre.value(r1, c1) == 0
                && #[trigger] self.value(r1, c1) != 0 ==> self.value(r1, c1) != #[trigger] self.value(r2, c2)
    }

    /// `self` grew from `pre` by deduction: solved cells keep their value,
    /// newly solved cells took one of their candidates in `pre`, and no
    /// candidate came back.
    pub open spec fn refines(&self, pre: &Board) -> bool {
        &&& forall|r: int, c: int| in_range(r, c) && pre.value(r, c) != 0 ==> #[trigger] self.value(r, c) == pre.value(r, c)
        &&& forall|r: int, c: int|
            in_range(r, c) && pre.value(r, c) == 0 && #[trigger] self.value(r, c) != 0 ==> pre.cand(r, c, self.value(r, c))
        &&& forall|r: int, c: int, d: int| in_range(r, c) && is_digit(d) && #[trigger] self.cand(r, c, d) ==> pre.cand(r, c, d)
    }
}

/// A board refines itself.
pub proof fn lemma_refines_refl(b: &Board)
    requires
        b.wf(),
    ensures
        b.refines(b),
{
}

/// Refinement chains.
pub proof fn lemma_refines_trans(a: &Board, b: &Board, c: &Board)
    requires
        a.wf(),
        b.wf(),
        c.wf(),
        b.refines(a),
        c.refines(b),
    ensures
        c.refines(a),
{
    assert forall|r: int, cc: int| in_range(r, cc) && a.value(r, cc) == 0 && #[trigger] c.value(r, cc) != 0 implies a.cand(r, cc, c.value(r, cc)) by {
        if b.value(r, cc) == 0 {
            assert(b.cand(r, cc, c.value(r, cc)));
        } else {
            assert(c.value(r, cc) == b.value(r, cc));
        }
    }
}

/// Cells solved since `a` stay clear of their peers along a chain of
/// refinements.
pub proof fn lemma_clean_trans(a: &Board, b: &Board, c: &Board)
    requires
        b.refines(a),
        c.refines(b),
        b.clean_from(a),
        c.clean_from(b),
    ensures
        c.clean_from(a),
{
    assert forall|r1: int, c1: int, r2: int, c2: int|
        in_range(r1, c1) && in_range(r2, c2) && peers(r1, c1, r2, c2) && a.value(r1, c1) == 0
            && #[trigger] c.value(r1, c1) != 0 implies c.value(r1, c1) != #[trigger] c.value(r2, c2) by {
        if b.value(r1, c1) == 0 {
        } else if c.value(r2, c2) != 0 {
            if b.value(r2, c2) == 0 {
                assert(peers(r2, c2, r1, c1));
            } else {
                assert(c.value(r2, c2) == b.value(r2, c2));
            }
        }
    }
}

/// Cands that only lose entries lower the count of live candidates, strictly
/// when one entry at `(r, c, d)` is lost.
pub proof fn lemma_cands_shrink(pre: &Board, post: &Board)
    requires
        pre.cands@.len() == 729,
        post.cands@.len() == 729,
        forall|r: int, c: int, d: int| in_range(r, c) && is_digit(d) && #[trigger] post.cand(r, c, d) ==> pre.cand(r, c, d),
    ensures
        count_true(post.cands@, 729) <= count_true(pre.cands@, 729),
        (exists|r: int, c: int, d: int| in_range(r, c) && is_digit(d) && pre.cand(r, c, d) && !post.cand(r, c, d))
            ==> count_true(post.cands@, 729) < count_true(pre.cands@, 729),
{
    assert forall|k: int| 0 <= k < 729 && #[trigger] post.cands@[k] implies pre.cands@[k] by {
        lemma_cand_index_onto(k);
        assert(post.cand(k / 81, (k % 81) / 9, k % 9 + 1));
    }
    if exists|r: int, c: int, d: int| in_range(r, c) && is_digit(d) && pre.cand(r, c, d) && !post.cand(r, c, d) {
        let (r, c, d) = choose|r: int, c: int, d: int| in_range(r, c) && is_digit(d) && pre.cand(r, c, d) && !post.cand(r, c, d);
        lemma_cand_index_unique(r, c, d, r, c, d);
        assert(pre.cands@[cand_index(r, c, d)] && !post.cands@[cand_index(r, c, d)]);
    }
    lemma_count_true_mono(pre.cands@, post.cands@, 729);
}

/// Solving an unsolved cell with one of its candidates: a refinement that
/// lowers the progress measure, keeps consistency, and keeps every solution
/// that puts that digit there.
pub proof fn lemma_solve_candidate(pre: &Board, post: &Board, r: int, c: int, v: int)
    requires
        pre.wf(),
        post.wf(),
        in_range(r, c),
        is_digit(v),
        pre.value(r, c) == 0,
        pre.cand(r, c, v),
        Board::solve_step(pre, post, r, c, v),
    ensures
        post.refines(pre),
        post.clean_from(pre),
        post.progress() < pre.progress(),
        pre.consistent() ==> post.consistent(),
        forall|s: Seq<int>| pre.compatible(s) && s[cell_index(r, c)] == v ==> #[trigger] post.compatible(s),
{
    assert forall|r1: int, c1: int| in_range(r1, c1) implies #[trigger] post.value(r1, c1) == if r1 == r && c1
        == c { v } else { pre.value(r1, c1) } by {
        if r1 != r || c1 != c {
            assert(cell_index(r1, c1) != cell_index(r, c));
        }
    }
    lemma_cands_shrink(pre, post);
    assert forall|r1: int, c1: int, r2: int, c2: int|
        in_range(r1, c1) && in_range(r2, c2) && peers(r1, c1, r2, c2) && pre.value(r1, c1) == 0
            && #[trigger] post.value(r1, c1) != 0 implies post.value(r1, c1) != #[trigger] post.value(r2, c2) by {
        assert(r1 == r && c1 == c);
        if post.value(r2, c2) == v {
            assert(peers(r2, c2, r1, c1));
            assert(!pre.cand(r, c, pre.value(r2, c2)));
        }
    }
    if pre.consistent() {
        assert forall|r1: int, c1: int, r2: int, c2: int|
            in_range(r1, c1) && in_range(r2, c2) && peers(r1, c1, r2, c2) && #[trigger] post.value(r1, c1) != 0
                implies post.value(r1, c1) != #[trigger] post.value(r2, c2) by {
            if r1 == r && c1 == c && post.value(r2, c2) == v {
                assert(!pre.cand(r, c, pre.value(r2, c2)));
            }
            if r2 == r && c2 == c && post.value(r1, c1) == v {
                assert(peers(r2, c2, r1, c1));
                assert(!pre.cand(r, c, pre.value(r1, c1)));
            }
        }
    }
    assert forall|s: Seq<int>| pre.compatible(s) && s[cell_index(r, c)] == v implies #[trigger] post.compatible(s) by {
        assert forall|r1: int, c1: int| in_range(r1, c1) implies if post.value(r1, c1) != 0 {
            s[cell_index(r1, c1)] == #[trigger] post.value(r1, c1)
        } else {
            post.cand(r1, c1, #[trigger] s[cell_index(r1, c1)])
        } by {
            if post.value(r1, c1) == 0 {
                assert(pre.value(r1, c1) == 0);
                if peers(r, c, r1, c1) {
                    assert(s[cell_index(r, c)] != s[cell_index(r1, c1)]);
                }
                assert(pre.cand(r1, c1, s[cell_index(r1, c1)]));
            } else if r1 != r || c1 != c {
                assert(pre.value(r1, c1) != 0);
            }
        }
    }
}

/// Every row of a solution holds every digit.
pub proof fn lemma_row_has(s: Seq<int>, r: int, v: int)
    requires
        is_solution(s),
        0 <= r < 9,
        is_digit(v),
    ensures
        exists|c: int| 0 <= c < 9 && s[cell_index(r, c)] == v,
{
    let x = Seq::new(9, |c: int| s[cell_index(r, c)]);
    assert forall|i: int, j: int| 0 <= i < 9 && 0 <= j < 9 && i != j implies #[trigger] x[i] != #[trigger] x[j] by {
        assert(peers(r, i, r, j));
    }
    assert forall|i: int| 0 <= i < 9 implies is_digit(#[trigger] x[i]) by {
        assert(in_range(r, i));
    }
    lemma_nine_distinct_cover(x, v);
    let c = choose|c: int| 0 <= c < 9 && x[c] == v;
    assert(s[cell_index(r, c)] == v);
}

/// Every column of a solution holds every digit.
pub proof fn lemma_col_has(s: Seq<int>, c: int, v: int)
    requires
        is_solution(s),
        0 <= c < 9,
        is_digit(v),
    ensures
        exists|r: int| 0 <= r < 9 && s[cell_index(r, c)] == v,
{
    let x = Seq::new(9, |r: int| s[cell_index(r, c)]);
    assert forall|i: int, j: int| 0 <= i < 9 && 0 <= j < 9 && i != j implies #[trigger] x[i] != #[trigger] x[j] by {
        assert(peers(i, c, j, c));
    }
    assert forall|i: int| 0 <= i < 9 implies is_digit(#[trigger] x[i]) by {
        assert(in_range(i, c));
    }
    lemma_nine_distinct_cover(x, v);
    let r = choose|r: int| 0 <= r < 9 && x[r] == v;
    assert(s[cell_index(r, c)] == v);
}

/// Every block of a solution holds every digit; the block is given by the
/// row and column of its top-left cell.
pub proof fn lemma_block_has(s: Seq<int>, br: int, bc: int, v: int)
    requires
        is_solution(s),
        0 <= br < 9,
        0 <= bc < 9,
        br % 3 == 0,
        bc % 3 == 0,
        is_digit(v),
    ensures
        exists|r: int, c: int| br <= r < br + 3 && bc <= c < bc + 3 && s[cell_index(r, c)] == v,
{
    let x = Seq::new(9, |i: int| s[cell_index(br + i / 3, bc + i % 3)]);
    assert forall|i: int, j: int| 0 <= i < 9 && 0 <= j < 9 && i != j implies #[trigger] x[i] != #[trigger] x[j] by {
        assert((br + i / 3) / 3 == br / 3 && (br + j / 3) / 3 == br / 3);
        assert((bc + i % 3) / 3 == bc / 3 && (bc + j % 3) / 3 == bc / 3);
        assert(i / 3 != j / 3 || i % 3 != j % 3);
        assert(peers(br + i / 3, bc + i % 3, br + j / 3, bc + j % 3));
    }
    assert forall|i: int| 0 <= i < 9 implies is_digit(#[trigger] x[i]) by {
        assert(in_range(br + i / 3, bc + i % 3));
    }
    lemma_nine_distinct_cover(x, v);
    let i = choose|i: int| 0 <= i < 9 && x[i] == v;
    assert(s[cell_index(br + i / 3, bc + i % 3)] == v);
}

/// Nine pairwise distinct digits cover every digit.
pub proof fn lemma_nine_distinct_cover(x: Seq<int>, v: int)
    requires
        x.len() == 9,
        forall|i: int| 0 <= i < 9 ==> is_digit(#[trigger] x[i]),
        forall|i: int, j: int| 0 <= i < 9 && 0 <= j < 9 && i != j ==> #[trigger] x[i] != #[trigger] x[j],
        is_digit(v),
    ensures
        exists|i: int| 0 <= i < 9 && x[i] == v,
{
    if forall|i: int| 0 <= i < 9 ==> x[i] != v {
        x.unique_seq_to_set();
        let range = set_int_range(1, 10).remove(v);
        lemma_int_range(1, 10);
        assert forall|y: int| x.to_set().contains(y) implies range.contains(y) by {
            let i = choose|i: int| 0 <= i < 9 && x[i] == y;
        }
        lemma_len_subset(x.to_set(), range);
        assert(false);
    }
}

} // verus!
