use sudoku::board::{get_cells_of_block, get_cells_to_clear, Board, SolveError};

const EASY: &str = "530070000600195000098000060800060003400803001700020006060000280000419005000080079";
const EASY_SOLUTION: &str = "534678912672195348198342567859761423426853791713924856961537284287419635345286179";
const HARD: &str = "800000000003600000070090200050007000000045700000100030001000068008500010090000400";
const HARD_SOLUTION: &str = "812753649943682175675491283154237896369845721287169534521974368438526917796318452";

fn cand(b: &Board, r: usize, c: usize, d: usize) -> bool {
    b.cands[81 * r + 9 * c + d - 1]
}

fn grid_text(b: &Board) -> String {
    let mut s = String::new();
    for r in 0..9 {
        for v in b.get_row_level(r, 0) {
            s.push(char::from(b'0' + v as u8));
        }
    }
    s
}

fn is_valid_solution(b: &Board) -> bool {
    for r1 in 0..9 {
        for c1 in 0..9 {
            let v = b.values[9 * r1 + c1];
            if v < 1 || v > 9 {
                return false;
            }
            for r2 in 0..9 {
                for c2 in 0..9 {
                    let same = r1 == r2 && c1 == c2;
                    let peer = r1 == r2 || c1 == c2 || (r1 / 3 == r2 / 3 && c1 / 3 == c2 / 3);
                    if !same && peer && b.values[9 * r2 + c2] == v {
                        return false;
                    }
                }
            }
        }
    }
    true
}

#[test]
fn new_board_is_open() {
    let b = Board::new();
    assert_eq!(b.solved_count, 0);
    assert!(!b.is_solved());
    assert!(b.values.iter().all(|&v| v == 0));
    assert!(b.cands.iter().all(|&x| x));
    assert_eq!(b.get_row_level(4, 0), vec![0; 9]);
    assert_eq!(b.get_row_level(4, 7), vec![7; 9]);
}

#[test]
fn cells_to_clear_cover_peers() {
    let cells = get_cells_to_clear(4, 5);
    assert_eq!(cells.len(), 22);
    for r in 0..9 {
        for c in 0..9 {
            let peer = r == 4 || c == 5 || (r / 3 == 1 && c / 3 == 1);
            assert_eq!(cells.contains(&(r, c)), peer, "cell {} {}", r, c);
        }
    }
}

#[test]
fn cells_of_block_row_major() {
    assert_eq!(get_cells_of_block(0), vec![(0, 0), (0, 1), (0, 2), (1, 0), (1, 1), (1, 2), (2, 0), (2, 1), (2, 2)]);
    assert_eq!(get_cells_of_block(5), vec![(3, 6), (3, 7), (3, 8), (4, 6), (4, 7), (4, 8), (5, 6), (5, 7), (5, 8)]);
}

#[test]
fn setsolved_clears_peers_and_cell() {
    let mut b = Board::new();
    b.setsolved(4, 5, 7);
    assert_eq!(b.solved_count, 1);
    assert_eq!(b.values[9 * 4 + 5], 7);
    for d in 1..10 {
        assert!(!cand(&b, 4, 5, d));
    }
    assert!(!cand(&b, 4, 0, 7));
    assert!(!cand(&b, 8, 5, 7));
    assert!(!cand(&b, 3, 3, 7));
    assert!(cand(&b, 3, 3, 6));
    assert!(cand(&b, 0, 0, 7));
    assert_eq!(b.get_row_level(4, 0), vec![0, 0, 0, 0, 0, 7, 0, 0, 0]);
    assert_eq!(b.get_row_level(4, 7), vec![0; 9]);
}

#[test]
fn setsolved_twice_is_once() {
    let mut once = Board::new();
    once.setsolved(2, 3, 5);
    let mut twice = Board::new();
    twice.setsolved(2, 3, 5);
    twice.setsolved(2, 3, 5);
    assert_eq!(once.values, twice.values);
    assert_eq!(once.cands, twice.cands);
    assert_eq!(once.solved_count, twice.solved_count);
    twice.setsolved(2, 3, 9);
    assert_eq!(twice.values[9 * 2 + 3], 5);
    assert_eq!(twice.solved_count, 1);
}

#[test]
fn solved_iff_count_is_81() {
    let mut b = Board::read_board(EASY_SOLUTION).unwrap();
    assert_eq!(b.solved_count, 81);
    assert!(b.is_solved());
    let mut partial = Board::read_board(EASY).unwrap();
    assert!(partial.solved_count < 81);
    assert!(!partial.is_solved());
    assert!(b.solve_board().is_ok());
    assert!(partial.solve_board().unwrap().is_solved());
}

#[test]
fn read_board_places_givens() {
    let text = format!("{}\n{}\r\n{}", &EASY[..27], &EASY[27..54], &EASY[54..]);
    let b = Board::read_board(&text).unwrap();
    assert_eq!(b.get_row_level(0, 0), vec![5, 3, 0, 0, 7, 0, 0, 0, 0]);
    assert_eq!(b.get_row_level(8, 0), vec![0, 0, 0, 0, 8, 0, 0, 7, 9]);
    assert_eq!(b.solved_count, 30);
    assert!(!cand(&b, 0, 2, 5));
    assert!(cand(&b, 0, 2, 1));
}

#[test]
fn read_board_rejects_bad_text() {
    let mut bad = String::from(EASY);
    bad.replace_range(10..11, "x");
    assert_eq!(Board::read_board(&bad).err(), Some(SolveError::Parse));
    assert_eq!(Board::read_board(&EASY[..80]).err(), Some(SolveError::Parse));
    let long = format!("{}0", EASY);
    assert_eq!(Board::read_board(&long).err(), Some(SolveError::Parse));
    let spaced = format!("{} ", EASY);
    assert_eq!(Board::read_board(&spaced).err(), Some(SolveError::Parse));
}

#[test]
fn easy_puzzle_by_propagation_alone() {
    let mut b = Board::read_board(EASY).unwrap();
    assert_eq!(b.try_board(), Ok(()));
    assert!(b.is_solved());
    assert_eq!(b.solved_count, 81);
    assert_eq!(grid_text(&b), EASY_SOLUTION);
}

#[test]
fn unique_solution_round_trip() {
    let mut b = Board::read_board(EASY).unwrap();
    let solved = b.solve_board().unwrap();
    assert_eq!(grid_text(&solved), EASY_SOLUTION);
}

#[test]
fn hard_puzzle_needs_branching() {
    let mut b = Board::read_board(HARD).unwrap();
    assert_eq!(b.try_board(), Ok(()));
    assert!(!b.is_solved());
    let propagated = b.clone();
    let solved = b.solve_board().unwrap();
    assert!(is_valid_solution(&solved));
    assert_eq!(grid_text(&solved), HARD_SOLUTION);
    // the hypotheses ran on copies: the parent is as propagation left it
    assert_eq!(b.values, propagated.values);
    assert_eq!(b.cands, propagated.cands);
    assert_eq!(b.solved_count, propagated.solved_count);
}

#[test]
fn empty_grid_is_solvable() {
    let zeros = "0".repeat(81);
    let mut b = Board::read_board(&zeros).unwrap();
    let solved = b.solve_board().unwrap();
    assert!(solved.is_solved());
    assert!(is_valid_solution(&solved));
}

#[test]
fn duplicate_in_row_fails() {
    // a second 5 in the first row of an otherwise solvable puzzle
    let mut text = String::from(EASY);
    text.replace_range(2..3, "5");
    let mut b = Board::read_board(&text).unwrap();
    let res = b.solve_board();
    assert!(res.is_err());
    let err = res.err().unwrap();
    assert!(err == SolveError::Deduction || err == SolveError::Exhausted);
}

#[test]
fn dead_cell_is_a_deduction_error() {
    let mut b = Board::new();
    for c in 1..9 {
        b.setsolved(0, c, c);
    }
    b.setsolved(1, 0, 9);
    assert_eq!(b.check_cells(), Err(SolveError::Deduction));
}

#[test]
fn naked_single_is_solved() {
    let mut b = Board::new();
    for c in 1..9 {
        b.setsolved(0, c, c);
    }
    assert_eq!(b.check_cells(), Ok(true));
    assert_eq!(b.values[0], 9);
    assert_eq!(b.check_cells(), Ok(false));
}

#[test]
fn row_rule_finds_hidden_single() {
    let mut b = Board::new();
    b.setsolved(1, 0, 4);
    b.setsolved(2, 3, 4);
    b.setsolved(3, 6, 4);
    b.setsolved(4, 7, 4);
    // row 0: digit 4 left in column 8 only
    assert!(!cand(&b, 0, 7, 4));
    assert!(cand(&b, 0, 8, 4));
    assert!(b.check_rows());
    assert_eq!(b.values[8], 4);
}

#[test]
fn column_rule_finds_hidden_single() {
    let mut b = Board::new();
    b.setsolved(0, 1, 4);
    b.setsolved(3, 2, 4);
    b.setsolved(6, 3, 4);
    b.setsolved(7, 4, 4);
    // column 0: digit 4 left in row 8 only
    assert!(cand(&b, 8, 0, 4));
    assert!(b.check_cols());
    assert_eq!(b.values[9 * 8], 4);
}

#[test]
fn block_rule_finds_hidden_single() {
    let mut b = Board::new();
    b.setsolved(1, 3, 1);
    b.setsolved(2, 6, 1);
    b.setsolved(3, 1, 1);
    b.setsolved(6, 2, 1);
    assert!(b.check_blocks());
    assert_eq!(b.values[0], 1);
}

#[test]
fn block_rule_points_along_row() {
    let mut b = Board::new();
    // rows 1 and 2 of block 0 are filled without digit 1
    b.setsolved(1, 0, 2);
    b.setsolved(1, 1, 3);
    b.setsolved(1, 2, 4);
    b.setsolved(2, 0, 5);
    b.setsolved(2, 1, 6);
    b.setsolved(2, 2, 7);
    assert!(cand(&b, 0, 5, 1) && cand(&b, 0, 8, 1));
    assert!(b.check_blocks());
    assert!(cand(&b, 0, 0, 1) && cand(&b, 0, 1, 1) && cand(&b, 0, 2, 1));
    for c in 3..9 {
        assert!(!cand(&b, 0, c, 1));
    }
    assert!(cand(&b, 1, 5, 1));
}

#[test]
fn block_rule_points_along_column() {
    let mut b = Board::new();
    // columns 1 and 2 of block 0 are filled without digit 1
    b.setsolved(0, 1, 2);
    b.setsolved(1, 1, 3);
    b.setsolved(2, 1, 4);
    b.setsolved(0, 2, 5);
    b.setsolved(1, 2, 6);
    b.setsolved(2, 2, 7);
    assert!(b.check_blocks());
    assert!(cand(&b, 0, 0, 1) && cand(&b, 1, 0, 1) && cand(&b, 2, 0, 1));
    for r in 3..9 {
        assert!(!cand(&b, r, 0, 1));
    }
    assert!(cand(&b, 5, 1, 1));
}

#[test]
fn passes_only_remove_candidates() {
    let mut b = Board::read_board(HARD).unwrap();
    let before = b.clone();
    let _ = b.check_cells();
    b.check_rows();
    b.check_cols();
    b.check_blocks();
    for k in 0..729 {
        if b.cands[k] {
            assert!(before.cands[k]);
        }
    }
    for k in 0..81 {
        if before.values[k] != 0 {
            assert_eq!(b.values[k], before.values[k]);
        }
    }
}

#[test]
fn shortest_cell_orders_by_candidates() {
    let mut b = Board::new();
    b.setsolved(0, 0, 1);
    b.setsolved(0, 1, 2);
    let cells = b.shortest_cell();
    assert_eq!(cells.len(), 79);
    for w in cells.windows(2) {
        assert!(w[0].v.len() >= w[1].v.len());
    }
    assert_eq!((cells[0].r, cells[0].c), (8, 8));
    let last = &cells[78];
    assert_eq!((last.r, last.c), (0, 2));
    assert_eq!(last.v, vec![3, 4, 5, 6, 7, 8, 9]);
    assert_eq!(b.candidates(0, 2), vec![3, 4, 5, 6, 7, 8, 9]);
}

#[test]
fn full_grid_is_returned_as_given() {
    let mut b = Board::read_board(EASY_SOLUTION).unwrap();
    let solved = b.solve_board().unwrap();
    assert_eq!(grid_text(&solved), EASY_SOLUTION);
    assert!(is_valid_solution(&solved));
}

#[test]
fn read_board_rejects_multibyte_text() {
    let text = format!("{}é", &EASY[..80]);
    assert_eq!(Board::read_board(&text).err(), Some(SolveError::Parse));
}

#[test]
fn shortest_cell_on_new_board() {
    let b = Board::new();
    let cells = b.shortest_cell();
    assert_eq!(cells.len(), 81);
    assert_eq!((cells[0].r, cells[0].c), (8, 8));
    assert_eq!((cells[80].r, cells[80].c), (0, 0));
    for (k, cell) in cells.iter().enumerate() {
        assert_eq!(9 * cell.r + cell.c, 80 - k);
        assert_eq!(cell.v, vec![1, 2, 3, 4, 5, 6, 7, 8, 9]);
    }
}

#[test]
fn branch_leaves_board_untouched() {
    let mut b = Board::read_board(HARD).unwrap();
    assert_eq!(b.try_board(), Ok(()));
    let before = b.clone();
    let solved = b.branch().unwrap();
    assert_eq!(grid_text(&solved), HARD_SOLUTION);
    assert_eq!(b.values, before.values);
    assert_eq!(b.cands, before.cands);
}

