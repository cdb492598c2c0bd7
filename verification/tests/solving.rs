use str8ts::board::compute_rows_columns;
use str8ts::board::empty_board;
use str8ts::generator::generate_puzzle_with;
use str8ts::solver::solve_backtrack;
use str8ts::solver::Str8tsSolution;
use str8ts::validator::validate_board;

#[test]
fn lone_free_cell_with_one_candidate_gives_unique_solution() {
    // row 0 is white and holds 1..=8; every other cell is black and empty,
    // so cell 8 is the only decision and must take the 9
    let mut b = empty_board();
    for j in 9..81 {
        b[j].is_white = false;
    }
    for j in 0..8 {
        b[j].value = (j + 1) as i32;
    }
    match solve_backtrack(b.clone()) {
        Str8tsSolution::Unique(s) => {
            assert_eq!(s[8].value, 9);
            for j in 0..81 {
                if j != 8 {
                    assert_eq!(s[j].value, b[j].value);
                }
                assert_eq!(s[j].is_white, b[j].is_white);
                assert_eq!(s[j].is_fixed, b[j].is_fixed);
            }
        },
        _ => panic!("expected a unique solution"),
    }
}

#[test]
fn free_cell_without_candidates_means_no_solution() {
    // as above, but a black cell in column 8 already holds the 9, so the
    // free cell admits nothing
    let mut b = empty_board();
    for j in 9..81 {
        b[j].is_white = false;
    }
    for j in 0..8 {
        b[j].value = (j + 1) as i32;
    }
    b[17].value = 9;
    assert!(matches!(
        solve_backtrack(b),
        Str8tsSolution::NoSolution
    ));
}

#[test]
fn two_free_cells_can_give_multiple_solutions() {
    // only cells 0 and 1 are playable: a two-cell straight takes any pair of
    // consecutive digits, in either order
    let mut b = empty_board();
    for j in 2..81 {
        b[j].is_white = false;
    }
    match solve_backtrack(b) {
        Str8tsSolution::Multiple(s) => {
            // the witness is the first solution in search order: the lowest
            // digit first, extended by its lowest consecutive partner
            assert_eq!(s[0].value, 1);
            assert_eq!(s[1].value, 2);
        },
        _ => panic!("expected several solutions"),
    }
}

#[test]
fn complete_board_is_its_own_unique_solution() {
    let mut b = empty_board();
    for j in 0..81 {
        b[j].is_white = false;
        b[j].value = -1;
    }
    b[0].is_white = true;
    b[0].value = 4;
    match solve_backtrack(b.clone()) {
        Str8tsSolution::Unique(s) => {
            for j in 0..81 {
                assert_eq!(s[j].value, b[j].value);
            }
        },
        _ => panic!("expected the board itself as unique solution"),
    }
}

#[test]
fn solver_respects_the_duplicate_rule() {
    // cells 0 and 1 form a straight; the rest of row 0 is black with digits
    // 3..=9 placed, so only 1 and 2 remain for the straight
    let mut b = empty_board();
    for j in 2..81 {
        b[j].is_white = false;
    }
    for j in 2..9 {
        b[j].value = (j + 1) as i32;
    }
    match solve_backtrack(b) {
        Str8tsSolution::Multiple(s) => {
            assert_eq!(s[0].value, 1);
            assert_eq!(s[1].value, 2);
        },
        _ => panic!("expected the two orders of the remaining pair"),
    }
}

#[test]
fn interlocking_straights_solve_step_by_step() {
    // white square: cells 0, 1, 9, 10; everything else black. The fixed 1
    // at cell 0 forces 2 right of it and 2 below it, and a black 1 in
    // column 1 leaves only the 3 for the last corner.
    let mut b = empty_board();
    for j in 0..81 {
        b[j].is_white = matches!(j, 0 | 1 | 9 | 10);
    }
    b[0].value = 1;
    b[0].is_fixed = true;
    b[19].value = 1;
    match solve_backtrack(b) {
        Str8tsSolution::Unique(s) => {
            assert_eq!(s[0].value, 1);
            assert_eq!(s[1].value, 2);
            assert_eq!(s[9].value, 2);
            assert_eq!(s[10].value, 3);
        },
        _ => panic!("expected a unique solution"),
    }
}

#[test]
fn interlocking_straights_with_two_endings() {
    // as above but without the black 1: the last corner may hold 1 or 3,
    // and the witness carries the smaller digit tried first
    let mut b = empty_board();
    for j in 0..81 {
        b[j].is_white = matches!(j, 0 | 1 | 9 | 10);
    }
    b[0].value = 1;
    b[0].is_fixed = true;
    match solve_backtrack(b) {
        Str8tsSolution::Multiple(s) => {
            assert_eq!(s[0].value, 1);
            assert_eq!(s[1].value, 2);
            assert_eq!(s[9].value, 2);
            assert_eq!(s[10].value, 1);
        },
        _ => panic!("expected two solutions"),
    }
}

#[test]
fn validate_board_marks_duplicates_and_returns_verdict() {
    let mut b = empty_board();
    let values = [5, 3, 5, 7, -1, -1, -1, -1, -1];
    for j in 0..9 {
        b[j].value = values[j];
    }
    let groups = compute_rows_columns(&b);
    let ok = validate_board(&mut b, &groups);
    assert!(!ok);
    assert!(!b[0].is_valid_in_row);
    assert!(!b[2].is_valid_in_row);
    assert!(b[1].is_valid_in_row);
    for j in 0..9 {
        assert!(b[j].is_valid_in_straight);
    }
}

#[test]
fn validate_board_marks_broken_straights() {
    let mut b = empty_board();
    let whites = [true, true, false, true, true, true, false, true, true];
    let values = [3, 5, -1, 2, 4, 7, -1, -1, -1];
    for j in 0..9 {
        b[j].is_white = whites[j];
        b[j].value = values[j];
    }
    let groups = compute_rows_columns(&b);
    let ok = validate_board(&mut b, &groups);
    assert!(!ok);
    // both filled straights break the range rule: {3,5} spans two cells'
    // worth, {2,4,7} three
    for j in [0, 1, 3, 4, 5] {
        assert!(!b[j].is_valid_in_straight);
    }
    assert!(b[7].is_valid_in_straight);
    assert!(b[8].is_valid_in_straight);
    for j in 0..9 {
        assert!(b[j].is_valid_in_row);
    }
}

#[test]
fn validate_board_resets_stale_flags() {
    let mut b = empty_board();
    b[13].is_valid_in_row = false;
    b[13].is_valid_in_straight = false;
    let groups = compute_rows_columns(&b);
    let ok = validate_board(&mut b, &groups);
    assert!(ok);
    for j in 0..81 {
        assert!(b[j].is_valid_in_row);
        assert!(b[j].is_valid_in_straight);
    }
}

#[test]
fn generated_puzzle_solves_uniquely_from_its_clues() {
    // failure is a normal outcome of generation; when a board comes back it
    // must consist of fixed clues only and admit exactly one solution
    if let Some(b) = generate_puzzle_with(15) {
        for c in &b {
            if !c.is_fixed {
                assert_eq!(c.value, -1);
            } else {
                assert!(1 <= c.value && c.value <= 9);
            }
        }
        assert!(matches!(
            solve_backtrack(b),
            Str8tsSolution::Unique(_)
        ));
    }
}

#[test]
fn generating_an_all_black_board_succeeds_at_once() {
    // with no white cell the empty board is its own unique solution, so
    // generation must deliver it immediately
    let b = generate_puzzle_with(0).expect("an all-black board generates trivially");
    for c in &b {
        assert!(!c.is_white);
        assert!(!c.is_fixed);
        assert_eq!(c.value, -1);
    }
    assert!(matches!(solve_backtrack(b), Str8tsSolution::Unique(_)));
}
