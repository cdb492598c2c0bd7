use vstd::prelude::*;
use crate::cell::Cell;
use crate::cell::board_wf;
use crate::group::Row;
use crate::group::digits;
use crate::group::fits_straight;
use crate::group::straight_views;
use crate::group::straights_spec;
use crate::group::value_present;
use crate::group::whites_of;
use crate::group::lemma_straights_structure;
use crate::group::lemma_concat_covers;
use crate::group::lemma_filter_filter;
use crate::group::lemma_filter_congruent;
use crate::group::lemma_filter_no_dup;
use crate::group::lemma_straights_disjoint;
use crate::group::white_at;

verus! {

/// The row of a board index.
pub open spec fn row_of(i: int) -> int {
    i / 9
}

/// The column of a board index.
pub open spec fn col_of(i: int) -> int {
    i % 9
}

/// The nine board indices of row `r`, left to right.
pub open spec fn row_indices(r: int) -> Seq<usize> {
    Seq::new(9, |j: int| (9 * r + j) as usize)
}

/// The nine board indices of column `c`, top to bottom.
pub open spec fn col_indices(c: int) -> Seq<usize> {
    Seq::new(9, |j: int| (c + 9 * j) as usize)
}

/// The indices of constraint group `g`: the nine rows first, then the nine
/// columns.
pub open spec fn group_indices(g: int) -> Seq<usize> {
    if g < 9 {
        row_indices(g)
    } else {
        col_indices(g - 9)
    }
}

/// The eighteen groups describe the board: each holds the right indices and
/// the straight partition the board's colours induce on them.
pub open spec fn groups_wf(groups: Seq<Row>, cells: Seq<Cell>) -> bool {
    &&& groups.len() == 18
    &&& forall|g: int|
        0 <= g < 18 ==> (#[trigger] groups[g]).row_cells@ == group_indices(g) && groups[g].matches(
            cells,
        )
}

/// Each group's indices are nine distinct board positions.
pub proof fn lemma_group_indices_ok(g: int)
    requires
        0 <= g < 18,
    ensures
        group_indices(g).len() == 9,
        forall|t: int| 0 <= t < 9 ==> #[trigger] group_indices(g)[t] < 81,
        group_indices(g).no_duplicates(),
{
}

/// A board index lies in its row group at position `i % 9` and in its column
/// group at position `i / 9`.
pub proof fn lemma_cell_in_groups(i: int)
    requires
        0 <= i < 81,
    ensures
        row_indices(row_of(i))[col_of(i)] == i as usize,
        col_indices(col_of(i))[row_of(i)] == i as usize,
        row_indices(row_of(i)).contains(i as usize),
        col_indices(col_of(i)).contains(i as usize),
        0 <= row_of(i) < 9,
        0 <= col_of(i) < 9,
{
    assert(9 * (i / 9) + i % 9 == i);
    assert(row_indices(row_of(i))[i % 9] == i as usize);
    assert(col_indices(col_of(i))[i / 9] == i as usize);
}

/// Digit `v` would not break the straight rule at white cell `i` of the
/// given group: it fits whichever straight of the group holds `i`.
pub open spec fn fits_group_straights(row: Seq<usize>, cells: Seq<Cell>, i: usize, v: int) -> bool {
    forall|j: int|
        0 <= j < straights_spec(row, cells).len() && (#[trigger] straights_spec(
            row,
            cells,
        )[j]).contains(i) ==> fits_straight(v, straights_spec(row, cells)[j], cells)
}

/// Digit `v` may be placed at cell `i` right now without breaking a rule:
/// it is missing from the cell's row and column, and for a white cell it
/// also fits the row's and the column's straight that hold the cell.
pub open spec fn is_candidate(cells: Seq<Cell>, i: int, v: int) -> bool {
    &&& 1 <= v <= 9
    &&& !value_present(row_indices(row_of(i)), cells, v)
    &&& !value_present(col_indices(col_of(i)), cells, v)
    &&& (cells[i].is_white ==> fits_group_straights(row_indices(row_of(i)), cells, i as usize, v)
        && fits_group_straights(col_indices(col_of(i)), cells, i as usize, v))
}

/// The candidates of cell `i`, ascending.
pub open spec fn candidate_seq(cells: Seq<Cell>, i: int) -> Seq<i32> {
    digits().filter(|d: i32| is_candidate(cells, i, d as int))
}

/// Build the eighteen constraint groups of a board: its nine rows, then its
/// nine columns, each with the straights the current colours induce.
pub fn compute_rows_columns(cells: &Vec<Cell>) -> (groups: Vec<Row>)
    requires
        cells@.len() == 81,
    ensures
        groups_wf(groups@, cells@),
{
    let mut groups: Vec<Row> = Vec::new();
    let mut r: usize = 0;
    while r < 9
        invariant
            r <= 9,
            cells@.len() == 81,
            groups@.len() == r,
            forall|g: int|
                0 <= g < r ==> (#[trigger] groups@[g]).row_cells@ == group_indices(g)
                    && groups@[g].matches(cells@),
        decreases 9 - r,
    {
        let mut indices: Vec<usize> = Vec::new();
        let mut j: usize = 0;
        while j < 9
            invariant
                j <= 9,
                r < 9,
                indices@.len() == j,
                forall|t: int| 0 <= t < j ==> #[trigger] indices@[t] == 9 * r + t,
            decreases 9 - j,
        {
            indices.push(9 * r + j);
            j += 1;
        }
        proof {
            assert(indices@ =~= row_indices(r as int));
        }
        groups.push(Row::new(indices, cells));
        r += 1;
    }
    let mut c: usize = 0;
    while c < 9
        invariant
            c <= 9,
            cells@.len() == 81,
            groups@.len() == 9 + c,
            forall|g: int|
                0 <= g < 9 + c ==> (#[trigger] groups@[g]).row_cells@ == group_indices(g)
                    && groups@[g].matches(cells@),
        decreases 9 - c,
    {
        let mut indices: Vec<usize> = Vec::new();
        let mut j: usize = 0;
        while j < 9
            invariant
                j <= 9,
                c < 9,
                indices@.len() == j,
                forall|t: int| 0 <= t < j ==> #[trigger] indices@[t] == c + 9 * t,
            decreases 9 - j,
        {
            indices.push(c + 9 * j);
            j += 1;
        }
        proof {
            assert(indices@ =~= col_indices(c as int));
        }
        groups.push(Row::new(indices, cells));
        c += 1;
    }
    groups
}

/// A fresh board with random colours and, possibly, random fixed clues:
/// each cell is white with the given percent probability and fixed with the
/// other; a fixed cell draws a digit, every other cell starts empty. With a
/// high fixed probability the board is usually not even valid: it is raw
/// material for the generator.
pub fn random_board(p_fixed_percent: u32, p_white_percent: u32) -> (r: Vec<Cell>)
    ensures
        r@.len() == 81,
        board_wf(r@),
        forall|i: int|
            0 <= i < 81 ==> {
                &&& ((#[trigger] r@[i]).is_fixed ==> 1 <= r@[i].value <= 9)
                &&& (!r@[i].is_fixed ==> r@[i].value == -1)
                &&& !r@[i].is_editing
                &&& r@[i].is_valid_in_row
                &&& r@[i].is_valid_in_straight
                &&& (forall|k: int| 0 <= k < 9 ==> !r@[i].small_values@[k])
                &&& (p_fixed_percent == 0 ==> !r@[i].is_fixed)
                &&& (p_fixed_percent >= 100 ==> r@[i].is_fixed)
                &&& (p_white_percent == 0 ==> !r@[i].is_white)
                &&& (p_white_percent >= 100 ==> r@[i].is_white)
            },
{
    let mut v: Vec<Cell> = Vec::new();
    let mut i: usize = 0;
    while i < 81
        invariant
            i <= 81,
            v@.len() == i,
            forall|t: int|
                0 <= t < i ==> {
                    &&& ((#[trigger] v@[t]).is_fixed ==> 1 <= v@[t].value <= 9)
                    &&& (!v@[t].is_fixed ==> v@[t].value == -1)
                    &&& v@[t].wf()
                    &&& !v@[t].is_editing
                    &&& v@[t].is_valid_in_row
                    &&& v@[t].is_valid_in_straight
                    &&& (forall|k: int| 0 <= k < 9 ==> !v@[t].small_values@[k])
                    &&& (p_fixed_percent == 0 ==> !v@[t].is_fixed)
                    &&& (p_fixed_percent >= 100 ==> v@[t].is_fixed)
                    &&& (p_white_percent == 0 ==> !v@[t].is_white)
                    &&& (p_white_percent >= 100 ==> v@[t].is_white)
                },
        decreases 81 - i,
    {
        let is_fixed = crate::rng::random_below(100) < p_fixed_percent;
        let is_white = crate::rng::random_below(100) < p_white_percent;
        let value: i32 = if is_fixed {
            1 + crate::rng::random_below(9) as i32
        } else {
            -1
        };
        v.push(Cell::new(value, is_white, is_fixed));
        i += 1;
    }
    v
}

/// An all-white board with every cell empty and nothing fixed.
pub fn empty_board() -> (r: Vec<Cell>)
    ensures
        r@.len() == 81,
        board_wf(r@),
        forall|i: int|
            0 <= i < 81 ==> {
                &&& (#[trigger] r@[i]).value == -1
                &&& r@[i].is_white
                &&& !r@[i].is_fixed
                &&& !r@[i].is_editing
                &&& r@[i].is_valid_in_row
                &&& r@[i].is_valid_in_straight
                &&& (forall|k: int| 0 <= k < 9 ==> !r@[i].small_values@[k])
            },
{
    random_board(0, 100)
}

/// Whether the board is complete: no white cell is still empty.
pub fn is_complete(cells: &Vec<Cell>) -> (b: bool)
    ensures
        b == forall|i: int|
            0 <= i < cells@.len() ==> !((#[trigger] cells@[i]).value <= 0 && cells@[i].is_white),
{
    let n = cells.len();
    let mut i: usize = 0;
    while i < n
        invariant
            i <= n,
            n == cells@.len(),
            forall|t: int|
                0 <= t < i ==> !((#[trigger] cells@[t]).value <= 0 && cells@[t].is_white),
        decreases n - i,
    {
        let c = cells[i];
        if c.value <= 0 && c.is_white {
            return false;
        }
        i += 1;
    }
    true
}

/// A white cell of a group lies in one of the group's straights.
pub proof fn lemma_white_has_straight(row: Seq<usize>, cells: Seq<Cell>, i: usize)
    requires
        row.contains(i),
        white_at(cells, i),
    ensures
        exists|j: int|
            0 <= j < straights_spec(row, cells).len() && (#[trigger] straights_spec(
                row,
                cells,
            )[j]).contains(i),
{
    lemma_straights_structure(row, cells);
    let t = choose|t: int| 0 <= t < row.len() && row[t] == i;
    row.lemma_filter_contains(|x: usize| white_at(cells, x), t);
    assert(whites_of(row, cells).contains(i));
    lemma_concat_covers(straights_spec(row, cells), i);
}

/// Compute the digits that may be placed at `cell_index` right now: those
/// missing from its row and column and, for a white cell, fitting the two
/// straights that hold it. Ascending, each digit at most once.
pub fn compute_possible_values(
    cell_index: usize,
    all_cells: &Vec<Cell>,
    rows_columns: &Vec<Row>,
) -> (r: Vec<i32>)
    requires
        board_wf(all_cells@),
        cell_index < 81,
        groups_wf(rows_columns@, all_cells@),
    ensures
        r@ == candidate_seq(all_cells@, cell_index as int),
{
    let ghost cells = all_cells@;
    let ghost i = cell_index as int;
    let ghost rowg = row_indices(row_of(i));
    let ghost colg = col_indices(col_of(i));
    proof {
        lemma_cell_in_groups(i);
        lemma_group_indices_ok(row_of(i));
        lemma_group_indices_ok(9 + col_of(i));
    }
    let row_pos = cell_index / 9;
    let col_pos = 9 + cell_index % 9;
    let row_g = &rows_columns[row_pos];
    let col_g = &rows_columns[col_pos];
    proof {
        assert(row_g.row_cells@ == rowg);
        assert(col_g.row_cells@ == colg);
    }

    // digits missing from the row
    let p1 = row_g.missing_values_cells(None, all_cells);
    let ghost pred_row = |d: i32| !value_present(rowg, cells, d as int);
    proof {
        assert(p1@ == digits().filter(pred_row));
    }

    // of those, the digits missing from the column as well
    let p2 = col_g.missing_values_cells(Some(&p1), all_cells);
    let ghost pred_col = |d: i32| !value_present(colg, cells, d as int) && p1@.contains(d);
    let ghost pred_rc = |d: i32| !value_present(rowg, cells, d as int) && !value_present(
        colg,
        cells,
        d as int,
    );
    proof {
        assert(p2@ == digits().filter(pred_col));
        assert forall|t: int| 0 <= t < digits().len() implies pred_col(#[trigger] digits()[t])
            == pred_rc(digits()[t]) by {
            let d = digits()[t];
            if pred_row(d) {
                digits().lemma_filter_contains(pred_row, t);
            }
            if p1@.contains(d) {
                digits().lemma_filter_pred(
                    pred_row,
                    choose|u: int| 0 <= u < p1@.len() && p1@[u] == d,
                );
            }
        }
        lemma_filter_congruent(digits(), pred_col, pred_rc);
        assert(p2@ == digits().filter(pred_rc));
    }

    if !all_cells[cell_index].is_white {
        proof {
            assert forall|t: int| 0 <= t < digits().len() implies pred_rc(#[trigger] digits()[t])
                == (|d: i32| is_candidate(cells, i, d as int))(digits()[t]) by {
                assert(1 <= digits()[t] <= 9);
            }
            lemma_filter_congruent(digits(), pred_rc, |d: i32| is_candidate(cells, i, d as int));
        }
        return p2;
    }

    // for a white cell, the digits must also fit the straight of the row and
    // the straight of the column that hold the cell
    proof {
        lemma_white_has_straight(rowg, cells, cell_index);
        lemma_white_has_straight(colg, cells, cell_index);
        assert forall|t: int| 0 <= t < p2@.len() implies 1 <= #[trigger] p2@[t] <= 9 by {
            digits().lemma_filter_pred(pred_rc, t);
            digits().lemma_filter_contains_rev(pred_rc, p2@[t]);
            let u = choose|u: int| 0 <= u < digits().len() && digits()[u] == p2@[t];
        }
    }
    let ghost jr = choose|j: int|
        0 <= j < straights_spec(rowg, cells).len() && (#[trigger] straights_spec(
            rowg,
            cells,
        )[j]).contains(cell_index);
    let ghost sr = straights_spec(rowg, cells)[jr];
    let p3 = row_g.possible_straight_values_cells(cell_index, &p2, all_cells);
    let ghost pred_sr = |d: i32| fits_straight(d as int, sr, cells);
    proof {
        assert(straight_views(row_g.straights@) == straights_spec(rowg, cells));
        assert(row_g.straights@[jr]@ == sr);
        assert(p3@ == p2@.filter(pred_sr));
        assert forall|t: int| 0 <= t < p3@.len() implies 1 <= #[trigger] p3@[t] <= 9 by {
            p2@.lemma_filter_contains_rev(pred_sr, p3@[t]);
            let u = choose|u: int| 0 <= u < p2@.len() && p2@[u] == p3@[t];
        }
    }
    let ghost jc = choose|j: int|
        0 <= j < straights_spec(colg, cells).len() && (#[trigger] straights_spec(
            colg,
            cells,
        )[j]).contains(cell_index);
    let ghost sc = straights_spec(colg, cells)[jc];
    let p4 = col_g.possible_straight_values_cells(cell_index, &p3, all_cells);
    let ghost pred_sc = |d: i32| fits_straight(d as int, sc, cells);
    proof {
        assert(straight_views(col_g.straights@) == straights_spec(colg, cells));
        assert(col_g.straights@[jc]@ == sc);
        assert(p4@ == p3@.filter(pred_sc));

        // collapse the filter chain into the candidate predicate
        lemma_filter_filter(digits(), pred_rc, pred_sr);
        let pred_rcs = |d: i32| pred_rc(d) && pred_sr(d);
        assert(p3@ == digits().filter(pred_rcs));
        lemma_filter_filter(digits(), pred_rcs, pred_sc);
        let pred_all = |d: i32| pred_rcs(d) && pred_sc(d);
        assert(p4@ == digits().filter(pred_all));

        // the straights holding the cell are unique, so fitting the chosen
        // one is fitting every one that holds the cell
        lemma_straights_structure(rowg, cells);
        lemma_filter_no_dup(rowg, |x: usize| white_at(cells, x));
        lemma_straights_structure(colg, cells);
        lemma_filter_no_dup(colg, |x: usize| white_at(cells, x));
        assert forall|t: int| 0 <= t < digits().len() implies pred_all(#[trigger] digits()[t])
            == (|d: i32| is_candidate(cells, i, d as int))(digits()[t]) by {
            let d = digits()[t];
            assert(1 <= d <= 9);
            assert forall|j: int|
                0 <= j < straights_spec(rowg, cells).len() && (#[trigger] straights_spec(
                    rowg,
                    cells,
                )[j]).contains(cell_index) implies j == jr by {
                if j < jr {
                    lemma_straights_disjoint(straights_spec(rowg, cells), cell_index, j, jr);
                } else if jr < j {
                    lemma_straights_disjoint(straights_spec(rowg, cells), cell_index, jr, j);
                }
            }
            assert forall|j: int|
                0 <= j < straights_spec(colg, cells).len() && (#[trigger] straights_spec(
                    colg,
                    cells,
                )[j]).contains(cell_index) implies j == jc by {
                if j < jc {
                    lemma_straights_disjoint(straights_spec(colg, cells), cell_index, j, jc);
                } else if jc < j {
                    lemma_straights_disjoint(straights_spec(colg, cells), cell_index, jc, j);
                }
            }
            assert(fits_group_straights(rowg, cells, cell_index, d as int) == fits_straight(
                d as int,
                sr,
                cells,
            ));
            assert(fits_group_straights(colg, cells, cell_index, d as int) == fits_straight(
                d as int,
                sc,
                cells,
            ));
        }
        lemma_filter_congruent(digits(), pred_all, |d: i32| is_candidate(cells, i, d as int));
    }
    p4
}

} // verus!
