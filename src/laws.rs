use vstd::prelude::*;
use crate::board::{in_range, is_digit, peers, Board};
use crate::grid::lemma_solve_candidate;
use crate::search::lemma_complete_compatible;

verus! {

/// Solving a cell twice with the same value leaves the board as solving it
/// once did.
pub proof fn lemma_solve_idempotent(a: &Board, b: &Board, c: &Board, r: int, col: int, v: int)
    requires
        a.wf(),
        in_range(r, col),
        is_digit(v),
        Board::solve_step(a, b, r, col, v),
        Board::solve_step(b, c, r, col, v),
    ensures
        c.same_state(b),
{
    if a.value(r, col) == 0 {
        assert(b.values@[9 * r + col] == v as u8);
    }
}

/// A sound deduction step never adds a candidate: every candidate of an
/// unsolved cell afterwards was a candidate before.
pub proof fn lemma_candidates_shrink(pre: &Board, post: &Board)
    requires
        post.deduced_from(pre),
    ensures
        forall|r: int, c: int, d: int|
            in_range(r, c) && is_digit(d) && post.value(r, c) == 0 && #[trigger] post.cand(r, c, d) ==> pre.cand(r, c, d),
{
}

/// Solving a cell with one of its candidates keeps a consistent board
/// consistent: no two solved peers come to hold the same value.
pub proof fn lemma_solve_keeps_consistency(pre: &Board, post: &Board, r: int, c: int, v: int)
    requires
        pre.wf(),
        post.wf(),
        pre.consistent(),
        in_range(r, c),
        is_digit(v),
        pre.value(r, c) != 0 || pre.cand(r, c, v),
        Board::solve_step(pre, post, r, c, v),
    ensures
        post.consistent(),
{
    if pre.value(r, c) == 0 {
        lemma_solve_candidate(pre, post, r, c, v);
    } else {
        assert forall|r1: int, c1: int| #[trigger] post.value(r1, c1) == pre.value(r1, c1) by {}
    }
}

/// A complete, consistent refinement of a consistent board with exactly one
/// solution, such as a search result, holds that solution.
pub proof fn lemma_unique_solution(pre: &Board, b: &Board, s: Seq<int>)
    requires
        pre.wf(),
        pre.consistent(),
        pre.compatible(s),
        forall|t: Seq<int>| #[trigger] pre.compatible(t) ==> t == s,
        b.wf(),
        b.complete(),
        b.consistent(),
        b.refines(pre),
    ensures
        b.grid() == s,
{
    lemma_complete_compatible(pre, b);
}

/// Two solved peers with the same value stay in every refinement: a search
/// result for a board seeded with a repeated digit in a row is never a
/// consistent grid. (Every cell the search itself fills clashes with no
/// peer, so on a board with unsolved cells the search fails instead.)
pub proof fn lemma_conflict_persists(pre: &Board, b: &Board, r: int, c1: int, c2: int)
    requires
        pre.wf(),
        b.refines(pre),
        in_range(r, c1),
        in_range(r, c2),
        c1 != c2,
        pre.value(r, c1) != 0,
        pre.value(r, c1) == pre.value(r, c2),
    ensures
        !b.consistent(),
{
    assert(peers(r, c1, r, c2));
    assert(b.value(r, c1) == pre.value(r, c1));
    assert(b.value(r, c2) == pre.value(r, c2));
}

} // verus!
