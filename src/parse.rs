use vstd::prelude::*;
use vstd::string::StringSliceAdditionalSpecFns;
use crate::board::{in_range, is_digit, peers, cell_index, Board, SolveError};

verus! {

/// A byte that the board text skips: a line feed or a carriage return.
pub open spec fn is_line_break(b: u8) -> bool {
    b == 10 || b == 13
}

/// An ASCII decimal digit.
pub open spec fn is_digit_byte(b: u8) -> bool {
    48 <= b <= 57
}

/// The digits among the first `n` bytes of `s`, line breaks left out.
pub open spec fn digits_upto(s: Seq<u8>, n: int) -> Seq<u8>
    decreases n,
{
    if n <= 0 {
        Seq::empty()
    } else if is_line_break(s[n - 1]) {
        digits_upto(s, n - 1)
    } else {
        digits_upto(s, n - 1).push(s[n - 1])
    }
}

/// Board text: digits and line breaks only, with exactly 81 digits.
pub open spec fn valid_text(s: Seq<u8>) -> bool {
    &&& forall|i: int| 0 <= i < s.len() ==> is_digit_byte(#[trigger] s[i]) || is_line_break(s[i])
    &&& digits_upto(s, s.len() as int).len() == 81
}

impl Board {
    /// Every candidate is exactly a digit that no solved peer holds, in an
    /// unsolved cell: the state reached by solving givens on a new board.
    pub open spec fn fresh(&self) -> bool {
        forall|r: int, c: int, d: int|
            in_range(r, c) && is_digit(d) ==> (#[trigger] self.cand(r, c, d) <==> (self.value(r, c) == 0
                && forall|r2: int, c2: int| in_range(r2, c2) && peers(r, c, r2, c2) ==> #[trigger] self.value(r2, c2) != d))
    }

    /// Reads a board from text: 81 digits in row-major order, `0` for a blank
    /// cell, line breaks ignored. Each nonzero digit is solved into its cell.
    /// Fails with `Parse` on any other character or another number of digits.
    pub fn read_board(text: &str) -> (res: Result<Board, SolveError>)
        ensures
            res is Ok <==> valid_text(text.spec_bytes()),
            res is Err ==> res == Err::<Board, SolveError>(SolveError::Parse),
            res matches Ok(b) ==> {
                &&& b.wf()
                &&& b.fresh()
                &&& forall|r: int, c: int|
                    in_range(r, c) ==> #[trigger] b.value(r, c) == digits_upto(text.spec_bytes(), text.spec_bytes().len() as int)[cell_index(r, c)] - 48
            },
    {
        let bytes = text.as_bytes();
        let ghost s = text.spec_bytes();
        let mut board = Board::new();
        let mut i: usize = 0;
        let mut n: usize = 0;
        while i < bytes.len()
            invariant
                bytes@ == s,
                s == text.spec_bytes(),
                i <= s.len(),
                n == digits_upto(s, i as int).len(),
                n <= 81,
                forall|k: int| 0 <= k < i ==> is_digit_byte(#[trigger] s[k]) || is_line_break(s[k]),
                board.wf(),
                board.fresh(),
                forall|r: int, c: int| in_range(r, c) ==> #[trigger] board.value(r, c) == if cell_index(r, c) < n {
                    digits_upto(s, i as int)[cell_index(r, c)] - 48
                } else {
                    0
                },
            decreases s.len() - i,
        {
            let b = bytes[i];
            if b == 10 || b == 13 {
                i += 1;
                continue;
            }
            if b < 48 || b > 57 || n >= 81 {
                proof {
                    if b >= 48 && b <= 57 {
                        assert(digits_upto(s, i + 1) == digits_upto(s, i as int).push(b));
                        lemma_digits_upto_mono(s, i as int + 1, s.len() as int);
                        assert(digits_upto(s, s.len() as int).len() != 81);
                    } else {
                        assert(!(is_digit_byte(s[i as int]) || is_line_break(s[i as int])));
                    }
                    assert(!valid_text(s));
                }
                return Err(SolveError::Parse);
            }
            let val = (b - 48) as usize;
            let row = n / 9;
            let col = n % 9;
            assert(cell_index(row as int, col as int) == n);
            let ghost pre = board;
            if val != 0 {
                board.setsolved(row, col, val);
                proof {
                    lemma_fresh_after_solve(&pre, &board, row as int, col as int, val as int);
                }
            }
            proof {
                assert(digits_upto(s, i + 1) == digits_upto(s, i as int).push(b));
                assert forall|r: int, c: int| in_range(r, c) implies #[trigger] board.value(r, c) == if cell_index(r, c) < n + 1 {
                    digits_upto(s, i + 1)[cell_index(r, c)] - 48
                } else {
                    0
                } by {
                    if cell_index(r, c) != n {
                        assert(pre.value(r, c) == board.value(r, c));
                    }
                }
            }
            n += 1;
            i += 1;
        }
        if n != 81 {
            return Err(SolveError::Parse);
        }
        Ok(board)
    }
}

/// The digit count only grows with the prefix.
pub proof fn lemma_digits_upto_mono(s: Seq<u8>, m: int, n: int)
    requires
        0 <= m <= n <= s.len(),
    ensures
        digits_upto(s, m).len() <= digits_upto(s, n).len(),
    decreases n - m,
{
    if m < n {
        lemma_digits_upto_mono(s, m, n - 1);
    }
}

/// Solving a cell of a fresh board keeps it fresh.
proof fn lemma_fresh_after_solve(pre: &Board, post: &Board, r: int, c: int, v: int)
    requires
        pre.wf(),
        pre.fresh(),
        in_range(r, c),
        is_digit(v),
        pre.value(r, c) == 0,
        Board::solve_step(pre, post, r, c, v),
    ensures
        post.fresh(),
{
    assert forall|r1: int, c1: int| in_range(r1, c1) implies #[trigger] post.value(r1, c1) == if r1 == r && c1
        == c { v } else { pre.value(r1, c1) } by {
        if r1 != r || c1 != c {
            assert(cell_index(r1, c1) != cell_index(r, c));
        }
    }
    assert forall|r1: int, c1: int, d: int| in_range(r1, c1) && is_digit(d) implies (#[trigger] post.cand(r1, c1, d) <==> (post.value(r1, c1) == 0
        && forall|r2: int, c2: int| in_range(r2, c2) && peers(r1, c1, r2, c2) ==> #[trigger] post.value(r2, c2) != d)) by {
        if post.value(r1, c1) == 0 && (forall|r2: int, c2: int| in_range(r2, c2) && peers(r1, c1, r2, c2) ==> #[trigger] post.value(r2, c2) != d) {
            assert forall|r2: int, c2: int| in_range(r2, c2) && peers(r1, c1, r2, c2) implies #[trigger] pre.value(r2, c2) != d by {
                assert(post.value(r2, c2) != d);
            }
            if d == v && peers(r, c, r1, c1) {
                assert(peers(r1, c1, r, c));
                assert(post.value(r, c) == v);
            }
        }
        if post.cand(r1, c1, d) {
            assert(pre.cand(r1, c1, d));
            assert forall|r2: int, c2: int| in_range(r2, c2) && peers(r1, c1, r2, c2) implies #[trigger] post.value(r2, c2) != d by {
                assert(pre.value(r2, c2) != d);
                if r2 == r && c2 == c {
                    assert(peers(r, c, r1, c1));
                }
            }
        }
    }
}

} // verus!
