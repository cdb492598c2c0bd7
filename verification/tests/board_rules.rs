use str8ts::board::compute_possible_values;
use str8ts::board::compute_rows_columns;
use str8ts::board::empty_board;
use str8ts::board::is_complete;
use str8ts::board::random_board;
use str8ts::cell::Cell;

#[test]
fn empty_board_is_all_white_and_empty() {
    let b = empty_board();
    assert_eq!(b.len(), 81);
    for c in &b {
        assert_eq!(c.value, -1);
        assert!(c.is_white);
        assert!(!c.is_fixed);
        assert!(!c.is_editing);
        assert!(c.is_valid_in_row);
        assert!(c.is_valid_in_straight);
        assert_eq!(c.small_values, [false; 9]);
    }
}

#[test]
fn random_board_all_black_is_empty() {
    let b = random_board(0, 0);
    assert_eq!(b.len(), 81);
    for c in &b {
        assert!(!c.is_white);
        assert!(!c.is_fixed);
        assert_eq!(c.value, -1);
    }
}

#[test]
fn random_board_all_fixed_holds_digits() {
    let b = random_board(100, 100);
    assert_eq!(b.len(), 81);
    for c in &b {
        assert!(c.is_white);
        assert!(c.is_fixed);
        assert!(1 <= c.value && c.value <= 9);
    }
}

#[test]
fn random_board_fixed_black_cells_are_clues() {
    let b = random_board(100, 0);
    for c in &b {
        assert!(!c.is_white);
        assert!(c.is_fixed);
        assert!(1 <= c.value && c.value <= 9);
    }
}

#[test]
fn cell_new_defaults() {
    let c = Cell::new(5, true, false);
    assert_eq!(c.value, 5);
    assert!(c.is_white);
    assert!(!c.is_fixed);
    assert!(!c.is_editing);
    assert!(c.is_valid_in_row);
    assert!(c.is_valid_in_straight);
    assert_eq!(c.small_values, [false; 9]);
}

#[test]
fn groups_cover_rows_then_columns() {
    let b = empty_board();
    let groups = compute_rows_columns(&b);
    assert_eq!(groups.len(), 18);
    assert_eq!(groups[0].row_cells, vec![0, 1, 2, 3, 4, 5, 6, 7, 8]);
    assert_eq!(groups[1].row_cells, vec![9, 10, 11, 12, 13, 14, 15, 16, 17]);
    assert_eq!(groups[9].row_cells, vec![0, 9, 18, 27, 36, 45, 54, 63, 72]);
    assert_eq!(groups[10].row_cells, vec![1, 10, 19, 28, 37, 46, 55, 64, 73]);
    // an all-white row is one single straight
    assert_eq!(groups[0].straights, vec![vec![0, 1, 2, 3, 4, 5, 6, 7, 8]]);
}

#[test]
fn straights_split_at_black_cells() {
    let mut b = empty_board();
    b[2].is_white = false;
    b[6].is_white = false;
    let groups = compute_rows_columns(&b);
    assert_eq!(
        groups[0].straights,
        vec![vec![0, 1], vec![3, 4, 5], vec![7, 8]]
    );
}

#[test]
fn full_valid_row_passes_validation() {
    let mut b = empty_board();
    for j in 0..9 {
        b[j].value = (j + 1) as i32;
    }
    let groups = compute_rows_columns(&b);
    assert!(groups[0].validate(&b).is_none());
}

#[test]
fn duplicate_digit_is_reported_with_its_cells() {
    let mut b = empty_board();
    let values = [5, 3, 5, 7, -1, -1, -1, -1, -1];
    for j in 0..9 {
        b[j].value = values[j];
    }
    let groups = compute_rows_columns(&b);
    let (dups, straights) = groups[0].validate(&b).expect("a duplicate must be found");
    assert_eq!(dups, vec![vec![0, 2]]);
    assert!(straights.is_empty());
}

#[test]
fn overstretched_straight_is_reported_whole() {
    let mut b = empty_board();
    let whites = [true, true, false, true, true, true, false, true, true];
    let values = [3, 5, -1, 2, 4, 7, -1, -1, -1];
    for j in 0..9 {
        b[j].is_white = whites[j];
        b[j].value = values[j];
    }
    let groups = compute_rows_columns(&b);
    assert_eq!(
        groups[0].straights,
        vec![vec![0, 1], vec![3, 4, 5], vec![7, 8]]
    );
    let (dups, straights) = groups[0].validate(&b).expect("an invalid straight must be found");
    assert!(dups.is_empty());
    // the pair {3,5} already spans its two-cell straight, and {2,4,7} spans
    // its three-cell straight; the empty straight [7,8] is fine
    assert_eq!(straights, vec![vec![0, 1], vec![3, 4, 5]]);
}

#[test]
fn missing_values_lists_absent_digits() {
    let mut b = empty_board();
    let values = [5, 3, -1, 7, -1, -1, -1, -1, -1];
    for j in 0..9 {
        b[j].value = values[j];
    }
    let groups = compute_rows_columns(&b);
    assert_eq!(groups[0].missing_values_cells(None, &b), vec![1, 2, 4, 6, 8, 9]);
    let cand = vec![2, 3, 4, 5];
    assert_eq!(groups[0].missing_values_cells(Some(&cand), &b), vec![2, 4]);
}

#[test]
fn straight_filter_keeps_digits_inside_reach() {
    let mut b = empty_board();
    b[2].is_white = false;
    b[6].is_white = false;
    b[3].value = 2;
    b[4].value = 4;
    let groups = compute_rows_columns(&b);
    // straight [3,4,5] holds {2,4}: only 3 fits, since 1 or 5 would stretch
    // the final span of the three-cell straight to at least three
    let cand = vec![1, 2, 3, 4, 5, 6, 7, 8, 9];
    let kept = groups[0].possible_straight_values_cells(5, &cand, &b);
    assert_eq!(kept, vec![3]);
    // the result is always a subset of the candidates handed in
    let narrow = vec![3, 9];
    let kept2 = groups[0].possible_straight_values_cells(5, &narrow, &b);
    assert_eq!(kept2, vec![3]);
    for v in &kept2 {
        assert!(narrow.contains(v));
    }
}

#[test]
fn empty_straight_restricts_nothing() {
    let mut b = empty_board();
    b[2].is_white = false;
    b[6].is_white = false;
    let groups = compute_rows_columns(&b);
    // no cell of straight [3,4,5] is filled, so the candidates pass through
    let cand = vec![2, 5, 9];
    assert_eq!(
        groups[0].possible_straight_values_cells(4, &cand, &b),
        vec![2, 5, 9]
    );
}

#[test]
fn candidates_respect_row_column_and_straight() {
    let mut b = empty_board();
    // row 0: digits 1..=5 at cells 0..=4
    for j in 0..5 {
        b[j].value = (j + 1) as i32;
    }
    // column 8 holds a 6 further down
    b[8 + 9].value = 6;
    let groups = compute_rows_columns(&b);
    // cell 8: row rules out 1..=5, column rules out 6, the nine-cell
    // straight holding 1..=5 admits everything up to 9
    assert_eq!(compute_possible_values(8, &b, &groups), vec![7, 8, 9]);
}

#[test]
fn black_cells_skip_the_straight_rule() {
    let mut b = empty_board();
    b[8].is_white = false;
    for j in 0..5 {
        b[j].value = (j + 1) as i32;
    }
    let groups = compute_rows_columns(&b);
    // the straight of cells 0..=7 no longer holds cell 8; only the row and
    // column restrict it
    assert_eq!(compute_possible_values(8, &b, &groups), vec![6, 7, 8, 9]);
}

#[test]
fn completeness_checks_white_cells_only() {
    let mut b = empty_board();
    assert!(!is_complete(&b));
    for j in 0..81 {
        b[j].value = 1 + (j % 9) as i32;
    }
    assert!(is_complete(&b));
    b[40].value = -1;
    assert!(!is_complete(&b));
    b[40].is_white = false;
    assert!(is_complete(&b));
}
