use vstd::prelude::*;
use crate::cell::Cell;
use crate::cell::board_wf;
use crate::cell::same_but_value;
use crate::group::Row;
use crate::group::digits;
use crate::group::occ;
use crate::group::straights_spec;
use crate::group::straight_invalid;
use crate::group::fits_straight;
use crate::group::min_filled;
use crate::group::max_filled;
use crate::group::has_filled;
use crate::group::value_present;
use crate::group::white_at;
use crate::group::whites_of;
use crate::group::concat_all;
use crate::group::lemma_straights_structure;
use crate::group::lemma_concat_contains;
use crate::group::lemma_filter_no_dup;
use crate::group::lemma_filter_congruent;
use crate::group::lemma_min_max_props;
use crate::board::row_of;
use crate::board::col_of;
use crate::board::row_indices;
use crate::board::col_indices;
use crate::board::group_indices;
use crate::board::groups_wf;
use crate::board::is_candidate;
use crate::board::candidate_seq;
use crate::board::fits_group_straights;
use crate::board::lemma_group_indices_ok;
use crate::board::lemma_cell_in_groups;
use crate::board::compute_rows_columns;
use crate::board::compute_possible_values;

verus! {

/// The outcome of exhaustive search: no solution, exactly one, or at least
/// two. The last two carry the first solution found.
pub enum Str8tsSolution {
    NoSolution,
    Unique(Vec<Cell>),
    Multiple(Vec<Cell>),
}

/// The cell with its value replaced and everything else kept.
pub open spec fn set_value(c: Cell, v: i32) -> Cell {
    Cell { value: v, ..c }
}

/// Cell `i` still needs a decision: it is white and holds no digit.
pub open spec fn decision_cell(cells: Seq<Cell>, i: int) -> bool {
    cells[i].is_white && cells[i].value <= 0
}

/// The two boards colour their cells alike.
pub open spec fn same_colors(c1: Seq<Cell>, c2: Seq<Cell>) -> bool {
    c1.len() == c2.len() && forall|i: int| 0 <= i < c1.len() ==> c1[i].is_white == (
    #[trigger] c2[i]).is_white
}

/// `sol` is a full solution of `base`: the same board cell for cell except
/// that every white empty cell of `base` now holds a digit.
pub open spec fn completes(sol: Seq<Cell>, base: Seq<Cell>) -> bool {
    &&& sol.len() == base.len()
    &&& forall|i: int| 0 <= i < base.len() ==> same_but_value(#[trigger] sol[i], base[i])
    &&& forall|i: int|
        0 <= i < base.len() && !decision_cell(base, i) ==> (#[trigger] sol[i]).value
            == base[i].value
    &&& forall|i: int|
        0 <= i < base.len() && decision_cell(base, i) ==> 1 <= (#[trigger] sol[i]).value <= 9
}

/// A group obeys both rules as far as it is filled: no digit twice, and no
/// straight whose filled digits span its cell count.
pub open spec fn group_ok(row: Seq<usize>, cells: Seq<Cell>) -> bool {
    &&& forall|v: i32| 1 <= v <= 9 ==> (#[trigger] occ(row, cells, v)).len() <= 1
    &&& forall|j: int|
        0 <= j < straights_spec(row, cells).len() ==> !straight_invalid(
            #[trigger] straights_spec(row, cells)[j],
            cells,
        )
}

/// Every row and column of the board obeys both rules as far as it is
/// filled.
pub open spec fn board_ok(cells: Seq<Cell>) -> bool {
    forall|g: int| 0 <= g < 18 ==> #[trigger] group_ok(group_indices(g), cells)
}

/// Straights depend on the colours alone.
pub proof fn lemma_straights_same_colors(row: Seq<usize>, c1: Seq<Cell>, c2: Seq<Cell>)
    requires
        forall|t: int| 0 <= t < row.len() ==> white_at(c1, #[trigger] row[t]) == white_at(
            c2,
            row[t],
        ),
    ensures
        straights_spec(row, c1) == straights_spec(row, c2),
    decreases row.len(),
{
    if row.len() > 0 {
        let dl = row.drop_last();
        assert(forall|t: int| 0 <= t < dl.len() ==> dl[t] == row[t]);
        lemma_straights_same_colors(dl, c1, c2);
    }
}

/// A board that recolours nothing keeps every group's straights, so the
/// eighteen groups of the old board still describe the new one.
pub proof fn lemma_groups_wf_same_colors(groups: Seq<Row>, c1: Seq<Cell>, c2: Seq<Cell>)
    requires
        groups_wf(groups, c1),
        same_colors(c1, c2),
        c1.len() == 81,
    ensures
        groups_wf(groups, c2),
{
    assert forall|g: int| 0 <= g < 18 implies (#[trigger] groups[g]).row_cells@ == group_indices(g)
        && groups[g].matches(c2) by {
        lemma_group_indices_ok(g);
        lemma_straights_same_colors(group_indices(g), c1, c2);
    }
}

/// The filled extremes of a straight depend only on the values at its
/// indices.
pub proof fn lemma_min_max_same_values(s: Seq<usize>, c1: Seq<Cell>, c2: Seq<Cell>)
    requires
        forall|t: int| 0 <= t < s.len() ==> c1[(#[trigger] s[t]) as int].value == c2[s[t] as int].value,
    ensures
        min_filled(s, c1) == min_filled(s, c2),
        max_filled(s, c1) == max_filled(s, c2),
        has_filled(s, c1) == has_filled(s, c2),
    decreases s.len(),
{
    if s.len() > 0 {
        let dl = s.drop_last();
        assert(forall|t: int| 0 <= t < dl.len() ==> dl[t] == s[t]);
        lemma_min_max_same_values(dl, c1, c2);
        if has_filled(s, c1) {
            let t = choose|t: int| 0 <= t < s.len() && c1[#[trigger] s[t] as int].value > 0;
            assert(c2[s[t] as int].value > 0);
        }
        if has_filled(s, c2) {
            let t = choose|t: int| 0 <= t < s.len() && c2[#[trigger] s[t] as int].value > 0;
            assert(c1[s[t] as int].value > 0);
        }
    }
}

/// Parts of a duplicate-free concatenation are themselves duplicate-free.
pub proof fn lemma_concat_no_dup_parts(ss: Seq<Seq<usize>>, j: int)
    requires
        concat_all(ss).no_duplicates(),
        0 <= j < ss.len(),
    ensures
        ss[j].no_duplicates(),
    decreases ss.len(),
{
    let pre = concat_all(ss.drop_last());
    if j == ss.len() - 1 {
        assert forall|a: int, b: int| 0 <= a < b < ss[j].len() implies ss[j][a] != ss[j][b] by {
            assert(concat_all(ss)[pre.len() + a] == ss[j][a]);
            assert(concat_all(ss)[pre.len() + b] == ss[j][b]);
        }
    } else {
        assert forall|a: int, b: int| 0 <= a < b < pre.len() implies pre[a] != pre[b] by {
            assert(concat_all(ss)[a] == pre[a]);
            assert(concat_all(ss)[b] == pre[b]);
        }
        assert(pre.no_duplicates());
        assert(ss.drop_last()[j] == ss[j]);
        lemma_concat_no_dup_parts(ss.drop_last(), j);
    }
}

/// A straight with no filled cell reports the neutral extremes.
pub proof fn lemma_min_max_neutral(s: Seq<usize>, cells: Seq<Cell>)
    requires
        !has_filled(s, cells),
    ensures
        min_filled(s, cells) == 10,
        max_filled(s, cells) == 0,
    decreases s.len(),
{
    if s.len() > 0 {
        let dl = s.drop_last();
        assert forall|t: int| 0 <= t < dl.len() implies !(cells[(#[trigger] dl[t]) as int].value
            > 0) by {
            assert(dl[t] == s[t]);
        }
        lemma_min_max_neutral(dl, cells);
        assert(!(cells[s[s.len() - 1] as int].value > 0));
    }
}

/// Placing digit `v` on the empty cell `i` of a straight moves its filled
/// extremes to include `v` and nothing else.
pub proof fn lemma_min_max_place(s: Seq<usize>, cells: Seq<Cell>, i: int, v: i32)
    requires
        s.no_duplicates(),
        s.contains(i as usize),
        forall|t: int| 0 <= t < s.len() ==> (#[trigger] s[t]) < cells.len(),
        0 <= i < cells.len(),
        i < usize::MAX,
        cells[i].value <= 0,
        0 < v <= 9,
    ensures
        has_filled(s, cells.update(i, set_value(cells[i], v))),
        !has_filled(s, cells) ==> min_filled(s, cells.update(i, set_value(cells[i], v))) == v
            && max_filled(s, cells.update(i, set_value(cells[i], v))) == v,
        has_filled(s, cells) ==> min_filled(s, cells.update(i, set_value(cells[i], v))) == (
        if v < min_filled(s, cells) {
            v as int
        } else {
            min_filled(s, cells)
        }) && max_filled(s, cells.update(i, set_value(cells[i], v))) == (if v > max_filled(
            s,
            cells,
        ) {
            v as int
        } else {
            max_filled(s, cells)
        }),
    decreases s.len(),
{
    let upd = cells.update(i, set_value(cells[i], v));
    let dl = s.drop_last();
    let t0 = choose|t: int| 0 <= t < s.len() && s[t] == i as usize;
    assert(upd[s[t0] as int].value > 0);
    if !has_filled(s, cells) {
        lemma_min_max_neutral(s, cells);
    }
    if !has_filled(dl, cells) {
        lemma_min_max_neutral(dl, cells);
    }
    if s.last() == i as usize {
        // the tail of the straight is untouched
        assert forall|t: int| 0 <= t < dl.len() implies cells[(#[trigger] dl[t]) as int].value
            == upd[dl[t] as int].value by {
            assert(dl[t] == s[t]);
            assert(s[t] != s[s.len() - 1]);
        }
        lemma_min_max_same_values(dl, cells, upd);
        if has_filled(s, cells) {
            let tf = choose|t: int| 0 <= t < s.len() && cells[#[trigger] s[t] as int].value > 0;
            assert(tf < s.len() - 1);
            assert(dl[tf] == s[tf]);
            assert(has_filled(dl, cells));
        }
        if has_filled(dl, cells) {
            let tf = choose|t: int| 0 <= t < dl.len() && cells[#[trigger] dl[t] as int].value > 0;
            assert(s[tf] == dl[tf]);
            assert(has_filled(s, cells));
        }
    } else {
        assert(dl.contains(i as usize)) by {
            assert(t0 < s.len() - 1);
            assert(dl[t0] == s[t0]);
        }
        assert(forall|t: int| 0 <= t < dl.len() ==> dl[t] == s[t]);
        lemma_min_max_place(dl, cells, i, v);
        assert(upd[s.last() as int].value == cells[s.last() as int].value);
        if has_filled(s, cells) && !has_filled(dl, cells) {
            let tf = choose|t: int| 0 <= t < s.len() && cells[#[trigger] s[t] as int].value > 0;
            if tf < s.len() - 1 {
                assert(cells[dl[tf] as int].value > 0);
                assert(false);
            }
        }
        if has_filled(dl, cells) {
            let tf = choose|t: int| 0 <= t < dl.len() && cells[#[trigger] dl[t] as int].value > 0;
            assert(cells[s[tf] as int].value > 0);
        }
    }
}

/// Spec-level facts about one straight of a group: its indices are white
/// members of the group, and it is non-empty.
pub proof fn lemma_straight_elems(row: Seq<usize>, cells: Seq<Cell>, j: int)
    requires
        0 <= j < straights_spec(row, cells).len(),
    ensures
        forall|t: int|
            0 <= t < straights_spec(row, cells)[j].len() ==> row.contains(
                #[trigger] straights_spec(row, cells)[j][t],
            ) && white_at(cells, straights_spec(row, cells)[j][t]),
        straights_spec(row, cells)[j].len() > 0,
{
    let ss = straights_spec(row, cells);
    lemma_straights_structure(row, cells);
    assert forall|t: int| 0 <= t < ss[j].len() implies row.contains(#[trigger] ss[j][t])
        && white_at(cells, ss[j][t]) by {
        lemma_concat_contains(ss, j, t);
        let x = ss[j][t];
        assert(whites_of(row, cells).contains(x));
        row.lemma_filter_contains_rev(|y: usize| white_at(cells, y), x);
        let q = choose|q: int|
            0 <= q < whites_of(row, cells).len() && whites_of(row, cells)[q] == x;
        row.lemma_filter_pred(|y: usize| white_at(cells, y), q);
    }
}

/// Placing a candidate digit on an empty cell keeps every rule satisfied:
/// the digit is fresh in its row and column, and the straight that receives
/// it keeps its filled span below its cell count.
pub proof fn lemma_place_preserves_ok(cells: Seq<Cell>, i: int, v: i32)
    requires
        board_wf(cells),
        0 <= i < 81,
        cells[i].value <= 0,
        is_candidate(cells, i, v as int),
        board_ok(cells),
    ensures
        board_wf(cells.update(i, set_value(cells[i], v))),
        board_ok(cells.update(i, set_value(cells[i], v))),
{
    let upd = cells.update(i, set_value(cells[i], v));
    assert forall|k: int| 0 <= k < upd.len() implies (#[trigger] upd[k]).wf() by {
        assert(cells[k].wf());
    }
    lemma_cell_in_groups(i);
    assert forall|g: int| 0 <= g < 18 implies #[trigger] group_ok(group_indices(g), upd) by {
        let row = group_indices(g);
        lemma_group_indices_ok(g);
        assert(group_ok(group_indices(g), cells));
        assert forall|t: int| 0 <= t < row.len() implies white_at(cells, #[trigger] row[t])
            == white_at(upd, row[t]) by {}
        lemma_straights_same_colors(row, cells, upd);
        let ss = straights_spec(row, cells);
        // the duplicate rule
        assert forall|w: i32| 1 <= w <= 9 implies (#[trigger] occ(row, upd, w)).len() <= 1 by {
            if !row.contains(i as usize) || w != v {
                assert forall|t: int| 0 <= t < row.len() implies (|x: usize|
                    upd[x as int].value == w)(#[trigger] row[t]) == (|x: usize|
                    cells[x as int].value == w)(row[t]) by {
                    if row[t] == i as usize {
                        assert(w >= 1 && cells[i].value <= 0);
                    }
                }
                lemma_filter_congruent(
                    row,
                    |x: usize| upd[x as int].value == w,
                    |x: usize| cells[x as int].value == w,
                );
                assert(occ(row, upd, w) == occ(row, cells, w));
            } else {
                // w == v and the group holds cell i: the only occurrence of v
                // in the updated group is cell i itself
                lemma_only_own_groups(g, i);
                assert(!value_present(row, cells, v as int));
                let o = occ(row, upd, w);
                lemma_filter_no_dup(row, |x: usize| upd[x as int].value == w);
                assert forall|t: int| 0 <= t < o.len() implies o[t] == i as usize by {
                    row.lemma_filter_pred(|x: usize| upd[x as int].value == w, t);
                    row.lemma_filter_contains_rev(|x: usize| upd[x as int].value == w, o[t]);
                    if o[t] != i as usize {
                        let p = choose|p: int| 0 <= p < row.len() && row[p] == o[t];
                        assert(cells[row[p] as int].value == w);
                        assert(value_present(row, cells, w as int));
                        assert(false);
                    }
                }
                if o.len() >= 2 {
                    assert(o[0] == i as usize && o[1] == i as usize);
                    assert(false);
                }
            }
        }
        // the straight rule
        assert forall|j: int| 0 <= j < straights_spec(row, upd).len() implies !straight_invalid(
            #[trigger] straights_spec(row, upd)[j],
            upd,
        ) by {
            let s = ss[j];
            assert(straights_spec(row, upd)[j] == s);
            lemma_straight_elems(row, cells, j);
            assert forall|t: int| 0 <= t < s.len() implies (#[trigger] s[t]) < cells.len()
                && cells[s[t] as int].wf() by {
                let p = choose|p: int| 0 <= p < row.len() && row[p] == s[t];
            }
            lemma_min_max_props(s, cells);
            assert(!straight_invalid(s, cells));
            if !s.contains(i as usize) {
                assert forall|t: int| 0 <= t < s.len() implies cells[(#[trigger] s[t]) as int].value
                    == upd[s[t] as int].value by {}
                lemma_min_max_same_values(s, cells, upd);
            } else {
                // the straight receives the new digit, which fits it
                lemma_only_own_groups(g, i);
                assert(white_at(cells, i as usize));
                assert(cells[i].is_white);
                assert(fits_group_straights(row, cells, i as usize, v as int));
                assert(fits_straight(v as int, s, cells));
                lemma_straights_structure(row, cells);
                lemma_filter_no_dup(row, |y: usize| white_at(cells, y));
                lemma_concat_no_dup_parts(ss, j);
                lemma_min_max_place(s, cells, i, v);
                let mn = min_filled(s, cells);
                let mx = max_filled(s, cells);
                if has_filled(s, cells) {
                    assert(mx - mn < s.len());
                    if v < mn {
                        assert(max_filled(s, upd) - min_filled(s, upd) == mx - v < s.len());
                    } else if v > mx {
                        assert(max_filled(s, upd) - min_filled(s, upd) == v - mn < s.len());
                    } else {
                        assert(mn < v < mx);
                        assert(max_filled(s, upd) - min_filled(s, upd) == mx - mn);
                    }
                } else {
                    assert(min_filled(s, upd) == v && max_filled(s, upd) == v);
                }
                assert(!straight_invalid(s, upd));
            }
        }
    }
}

/// Placing a candidate digit somewhere else never makes a digit possible at
/// a cell where it was not: candidate sets only shrink as the board fills.
pub proof fn lemma_place_shrinks(cells: Seq<Cell>, i: int, v: i32, j: int, w: i32)
    requires
        board_wf(cells),
        0 <= i < 81,
        0 <= j < 81,
        i != j,
        cells[i].value <= 0,
        is_candidate(cells, i, v as int),
        is_candidate(cells.update(i, set_value(cells[i], v)), j, w as int),
    ensures
        is_candidate(cells, j, w as int),
{
    let upd = cells.update(i, set_value(cells[i], v));
    lemma_cell_in_groups(i);
    lemma_cell_in_groups(j);
    assert(1 <= w <= 9);
    // freedom in the row and the column carries back: cell i was empty
    assert forall|g: int| 0 <= g < 18 && (#[trigger] group_indices(g)).contains(j as usize)
        implies !value_present(group_indices(g), cells, w as int) by {
        let row = group_indices(g);
        lemma_group_indices_ok(g);
        lemma_only_own_groups(g, j);
        if value_present(row, cells, w as int) {
            let t = choose|t: int|
                0 <= t < row.len() && cells[#[trigger] row[t] as int].value == w;
            assert(row[t] != i as usize);
            assert(upd[row[t] as int].value == w);
            assert(value_present(row, upd, w as int));
            assert(false);
        }
    }
    assert(group_indices(row_of(j)).contains(j as usize));
    assert(group_indices(9 + col_of(j)).contains(j as usize));
    assert(!value_present(row_indices(row_of(j)), cells, w as int));
    assert(!value_present(col_indices(col_of(j)), cells, w as int));
    if cells[j].is_white {
        lemma_shrink_fits_group(row_of(j), cells, i, v, j, w);
        lemma_shrink_fits_group(9 + col_of(j), cells, i, v, j, w);
    }
}

/// The straight part of `lemma_place_shrinks`, for one group holding `j`:
/// a digit that fits `j`'s straight after the placement fit it before.
proof fn lemma_shrink_fits_group(g: int, cells: Seq<Cell>, i: int, v: i32, j: int, w: i32)
    requires
        0 <= g < 18,
        board_wf(cells),
        0 <= i < 81,
        0 <= j < 81,
        i != j,
        cells[i].value <= 0,
        is_candidate(cells, i, v as int),
        group_indices(g).contains(j as usize),
        cells[j].is_white,
        1 <= w <= 9,
        fits_group_straights(
            group_indices(g),
            cells.update(i, set_value(cells[i], v)),
            j as usize,
            w as int,
        ),
        !value_present(group_indices(g), cells.update(i, set_value(cells[i], v)), w as int),
    ensures
        fits_group_straights(group_indices(g), cells, j as usize, w as int),
{
    let upd = cells.update(i, set_value(cells[i], v));
    let row = group_indices(g);
    lemma_group_indices_ok(g);
    lemma_cell_in_groups(i);
    assert forall|t: int| 0 <= t < row.len() implies white_at(cells, #[trigger] row[t])
        == white_at(upd, row[t]) by {}
    lemma_straights_same_colors(row, cells, upd);
    let ss = straights_spec(row, cells);
    assert forall|k: int| 0 <= k < ss.len() && (#[trigger] ss[k]).contains(j as usize) implies
        fits_straight(w as int, ss[k], cells) by {
        let s = ss[k];
        lemma_straight_elems(row, cells, k);
        assert forall|t: int| 0 <= t < s.len() implies (#[trigger] s[t]) < cells.len()
            && cells[s[t] as int].wf() by {
            let p = choose|p: int| 0 <= p < row.len() && row[p] == s[t];
        }
        assert(upd[j].is_white);
        assert(fits_straight(w as int, s, upd));
        lemma_min_max_props(s, cells);
        if !s.contains(i as usize) {
            assert forall|t: int| 0 <= t < s.len() implies cells[(#[trigger] s[t]) as int].value
                == upd[s[t] as int].value by {}
            lemma_min_max_same_values(s, cells, upd);
        } else {
            // cell i shares this straight, so the placed digit fits it, and
            // the widened extremes still witness a fit for w
            lemma_only_own_groups(g, i);
            assert(cells[i].is_white);
            assert(fits_group_straights(row, cells, i as usize, v as int));
            assert(fits_straight(v as int, s, cells));
            lemma_straights_structure(row, cells);
            lemma_filter_no_dup(row, |y: usize| white_at(cells, y));
            lemma_concat_no_dup_parts(ss, k);
            lemma_min_max_place(s, cells, i, v);
            if has_filled(s, cells) {
                let mn = min_filled(s, cells);
                let mx = max_filled(s, cells);
                // w is no digit already filled in the group, so it differs
                // from both extremes, and from v itself
                let tmn = choose|t: int|
                    0 <= t < s.len() && cells[#[trigger] s[t] as int].value == mn;
                let pmn = choose|p: int| 0 <= p < row.len() && row[p] == s[tmn];
                assert(value_present(row, cells, mn));
                let tmx = choose|t: int|
                    0 <= t < s.len() && cells[#[trigger] s[t] as int].value == mx;
                let pmx = choose|p: int| 0 <= p < row.len() && row[p] == s[tmx];
                assert(value_present(row, cells, mx));
                if value_present(row, cells, w as int) {
                    let t = choose|t: int|
                        0 <= t < row.len() && cells[#[trigger] row[t] as int].value == w;
                    assert(row[t] != i as usize);
                    assert(upd[row[t] as int].value == w);
                    assert(value_present(row, upd, w as int));
                }
                assert(w != mn && w != mx);
                assert(upd[i].value == v);
                assert(value_present(row, upd, v as int));
                assert(w != v);
            }
        }
    }
}

/// Cells that agree field for field are the same cell.
pub proof fn lemma_cell_eq(a: Cell, b: Cell)
    requires
        a.value == b.value,
        a.is_white == b.is_white,
        a.is_fixed == b.is_fixed,
        a.is_editing == b.is_editing,
        a.is_valid_in_row == b.is_valid_in_row,
        a.is_valid_in_straight == b.is_valid_in_straight,
        a.small_values@ == b.small_values@,
    ensures
        a == b,
{
    assert forall|i: int| 0 <= i < 9 implies a.small_values[i] == b.small_values[i] by {
        assert(a.small_values@[i] == b.small_values@[i]);
    }
    vstd::array::axiom_array_ext_equal::<bool, 9>(a.small_values, b.small_values);
    assert(a.small_values =~= b.small_values);
    assert(a =~~= b);
}

/// The board `s` with every decision cell of `base` at index `k` or later
/// emptied back to its `base` state: the position the search is in just
/// before it decides cell `k` on the way to `s`.
pub open spec fn masked_from(s: Seq<Cell>, base: Seq<Cell>, k: int) -> Seq<Cell> {
    Seq::new(
        81,
        |t: int|
            if t >= k && decision_cell(base, t) {
                base[t]
            } else {
                s[t]
            },
    )
}

/// The completion `s` of `base` is reachable by the search from cell `idx`
/// on: at every decision cell from `idx` up, the digit `s` holds is a
/// candidate of the board in which the earlier decisions are already made.
pub open spec fn accepted_from(s: Seq<Cell>, base: Seq<Cell>, idx: int) -> bool {
    &&& completes(s, base)
    &&& forall|k: int|
        idx <= k < 81 && #[trigger] decision_cell(base, k) ==> is_candidate(
            masked_from(s, base, k),
            k,
            s[k].value as int,
        )
}

/// Before the first decision, the masked board is the base board itself.
pub proof fn lemma_masked_is_base(s: Seq<Cell>, base: Seq<Cell>, idx: int)
    requires
        base.len() == 81,
        completes(s, base),
        forall|t: int| 0 <= t < idx ==> !decision_cell(base, t),
    ensures
        masked_from(s, base, idx) == base,
{
    assert forall|t: int| 0 <= t < 81 implies masked_from(s, base, idx)[t] == base[t] by {
        if !(t >= idx && decision_cell(base, t)) {
            assert(!decision_cell(base, t));
            assert(same_but_value(s[t], base[t]));
            assert(s[t].value == base[t].value);
            lemma_cell_eq(s[t], base[t]);
        }
    }
    assert(masked_from(s, base, idx) =~= base);
}

/// One step of reachability: at the first undecided cell, the digit of `s`
/// is a candidate of the base board, and `s` stays reachable from the next
/// cell once that digit is placed.
pub proof fn lemma_accept_step(s: Seq<Cell>, base: Seq<Cell>, idx: int)
    requires
        base.len() == 81,
        accepted_from(s, base, idx),
        0 <= idx < 81,
        decision_cell(base, idx),
        forall|t: int| 0 <= t < idx ==> !decision_cell(base, t),
    ensures
        1 <= s[idx].value <= 9,
        is_candidate(base, idx, s[idx].value as int),
        accepted_from(
            s,
            base.update(idx, set_value(base[idx], s[idx].value)),
            idx + 1,
        ),
{
    lemma_masked_is_base(s, base, idx);
    let placed = base.update(idx, set_value(base[idx], s[idx].value));
    assert(same_but_value(s[idx], base[idx]));
    assert(same_but_value(s[idx], placed[idx]));
    assert(completes(s, placed)) by {
        assert forall|t: int| 0 <= t < 81 implies same_but_value(#[trigger] s[t], placed[t]) by {
            if t != idx {
                assert(placed[t] == base[t]);
            }
        }
        assert forall|t: int|
            0 <= t < 81 && !decision_cell(placed, t) implies (#[trigger] s[t]).value
            == placed[t].value by {
            if t != idx {
                assert(placed[t] == base[t]);
            }
        }
        assert forall|t: int|
            0 <= t < 81 && decision_cell(placed, t) implies 1 <= (#[trigger] s[t]).value <= 9 by {
            if t != idx {
                assert(placed[t] == base[t]);
                assert(decision_cell(base, t));
            }
        }
    }
    assert forall|k: int| idx + 1 <= k < 81 && #[trigger] decision_cell(placed, k) implies
        is_candidate(masked_from(s, placed, k), k, s[k].value as int) by {
        assert(placed[k] == base[k]);
        assert(decision_cell(base, k));
        assert(is_candidate(masked_from(s, base, k), k, s[k].value as int));
        assert forall|t: int|
            0 <= t < 81 implies masked_from(s, placed, k)[t] == masked_from(s, base, k)[t] by {
            if t != idx {
                assert(placed[t] == base[t]);
                assert(decision_cell(placed, t) == decision_cell(base, t));
            } else {
                assert(t < k);
            }
        }
        assert(masked_from(s, placed, k) =~= masked_from(s, base, k));
    }
}

/// On a board that obeys the duplicate rule, the digit of cell `k` stands
/// nowhere else in a group that holds `k`.
proof fn lemma_unique_digit_in_group(s: Seq<Cell>, g: int, k: int)
    requires
        0 <= g < 18,
        0 <= k < 81,
        group_indices(g).contains(k as usize),
        board_ok(s),
        1 <= s[k].value <= 9,
    ensures
        forall|t: int|
            0 <= t < group_indices(g).len() && (#[trigger] group_indices(g)[t]) != k as usize
                ==> s[group_indices(g)[t] as int].value != s[k].value,
{
    let row = group_indices(g);
    let v = s[k].value;
    lemma_group_indices_ok(g);
    assert(group_ok(row, s));
    assert forall|t: int|
        0 <= t < row.len() && (#[trigger] row[t]) != k as usize implies s[row[t] as int].value
        != v by {
        if s[row[t] as int].value == v {
            let tk = choose|tk: int| 0 <= tk < row.len() && row[tk] == k as usize;
            row.lemma_filter_contains(|y: usize| s[y as int].value == v, t);
            row.lemma_filter_contains(|y: usize| s[y as int].value == v, tk);
            let o = occ(row, s, v);
            assert(o.contains(row[t]));
            assert(o.contains(k as usize));
            if o.len() <= 1 {
                let p1 = choose|p: int| 0 <= p < o.len() && o[p] == row[t];
                let p2 = choose|p: int| 0 <= p < o.len() && o[p] == k as usize;
                assert(p1 == 0 && p2 == 0);
                assert(false);
            }
            assert(o.len() >= 2);
            assert(false);
        }
    }
}

/// Any full assignment that completes the board and breaks no rule is
/// reachable by the search: at every decision cell, the digit it holds is a
/// candidate of the board in which only the earlier decisions are made.
pub proof fn lemma_solution_accepted(s: Seq<Cell>, base: Seq<Cell>)
    requires
        base.len() == 81,
        board_wf(base),
        completes(s, base),
        board_ok(s),
    ensures
        accepted_from(s, base, 0),
        board_wf(s),
{
    assert forall|t: int| 0 <= t < 81 implies (#[trigger] s[t]).wf() by {
        if !decision_cell(base, t) {
            assert(s[t].value == base[t].value);
            assert(base[t].wf());
        }
    }
    assert forall|k: int| 0 <= k < 81 && #[trigger] decision_cell(base, k) implies is_candidate(
        masked_from(s, base, k),
        k,
        s[k].value as int,
    ) by {
        let m = masked_from(s, base, k);
        let v = s[k].value;
        assert(1 <= v <= 9);
        lemma_cell_in_groups(k);
        assert forall|t: int| 0 <= t < 81 implies (#[trigger] m[t]).wf() && m[t].is_white
            == s[t].is_white && (m[t].value > 0 ==> m[t].value == s[t].value) by {
            assert(base[t].wf());
            assert(same_but_value(s[t], base[t]));
        }
        // the duplicate rule: v stands nowhere else in k's row or column,
        // and the masked board only ever empties cells of s
        assert forall|g: int|
            0 <= g < 18 && (#[trigger] group_indices(g)).contains(k as usize) implies
            !value_present(group_indices(g), m, v as int) by {
            let row = group_indices(g);
            lemma_group_indices_ok(g);
            lemma_unique_digit_in_group(s, g, k);
            if value_present(row, m, v as int) {
                let t = choose|t: int|
                    0 <= t < row.len() && m[#[trigger] row[t] as int].value == v;
                let x = row[t] as int;
                assert(m[x].value == v);
                if x == k {
                    assert(m[k] == base[k]);
                    assert(false);
                }
                assert(s[x].value == v);
                assert(false);
            }
        }
        assert(group_indices(row_of(k)) == row_indices(row_of(k)));
        assert(group_indices(9 + col_of(k)) == col_indices(col_of(k)));
        assert(group_indices(row_of(k)).contains(k as usize));
        assert(group_indices(9 + col_of(k)).contains(k as usize));
        assert(!value_present(row_indices(row_of(k)), m, v as int));
        assert(!value_present(col_indices(col_of(k)), m, v as int));
        // the straight rule: in `s` every straight is fully filled with a
        // span below its length, and the masked straight only shrinks it
        if m[k].is_white {
            assert forall|g: int|
                0 <= g < 18 && (#[trigger] group_indices(g)).contains(k as usize) implies
                fits_group_straights(group_indices(g), m, k as usize, v as int) by {
                let row = group_indices(g);
                lemma_group_indices_ok(g);
                lemma_unique_digit_in_group(s, g, k);
                assert forall|t: int| 0 <= t < row.len() implies white_at(m, #[trigger] row[t])
                    == white_at(s, row[t]) by {}
                lemma_straights_same_colors(row, m, s);
                assert forall|j: int|
                    0 <= j < straights_spec(row, m).len() && (#[trigger] straights_spec(
                        row,
                        m,
                    )[j]).contains(k as usize) implies fits_straight(
                    v as int,
                    straights_spec(row, m)[j],
                    m,
                ) by {
                    let sj = straights_spec(row, m)[j];
                    lemma_straight_elems(row, m, j);
                    assert forall|t: int| 0 <= t < sj.len() implies (#[trigger] sj[t]) < 81
                        && m[sj[t] as int].wf() && s[sj[t] as int].wf() && s[sj[t] as int].value
                        > 0 by {
                        let p = choose|p: int| 0 <= p < row.len() && row[p] == sj[t];
                        let x = sj[t] as int;
                        // a white cell of the board is filled in s
                        if decision_cell(base, x) {
                        } else {
                            assert(s[x].value == base[x].value);
                            assert(white_at(m, sj[t]));
                            assert(base[x].is_white);
                            if base[x].value <= 0 {
                                assert(decision_cell(base, x));
                                assert(false);
                            }
                        }
                    }
                    lemma_min_max_props(sj, s);
                    lemma_min_max_props(sj, m);
                    assert(straights_spec(row, s)[j] == sj);
                    assert(group_ok(row, s));
                    assert(!straight_invalid(sj, s));
                    let tk = choose|t: int| 0 <= t < sj.len() && sj[t] == k as usize;
                    assert(s[sj[tk] as int].value == v);
                    assert(has_filled(sj, s));
                    let mn_s = min_filled(sj, s);
                    let mx_s = max_filled(sj, s);
                    assert(mx_s - mn_s < sj.len());
                    assert(mn_s <= v <= mx_s);
                    if has_filled(sj, m) {
                        let mn_m = min_filled(sj, m);
                        let mx_m = max_filled(sj, m);
                        let tn = choose|t: int|
                            0 <= t < sj.len() && m[#[trigger] sj[t] as int].value == mn_m;
                        let tx = choose|t: int|
                            0 <= t < sj.len() && m[#[trigger] sj[t] as int].value == mx_m;
                        assert(s[sj[tn] as int].value == mn_m);
                        assert(s[sj[tx] as int].value == mx_m);
                        assert(mn_s <= mn_m && mx_m <= mx_s);
                        // the masked straight does not hold k, so v differs
                        // from both extremes
                        assert(sj[tn] != k as usize) by {
                            if sj[tn] == k as usize {
                                assert(m[k] == base[k]);
                                assert(base[k].value <= 0);
                            }
                        }
                        assert(sj[tx] != k as usize) by {
                            if sj[tx] == k as usize {
                                assert(m[k] == base[k]);
                                assert(base[k].value <= 0);
                            }
                        }
                        let pn = choose|p: int| 0 <= p < row.len() && row[p] == sj[tn];
                        let px = choose|p: int| 0 <= p < row.len() && row[p] == sj[tx];
                        assert(mn_m != v && mx_m != v);
                    }
                }
            }
            assert(fits_group_straights(row_indices(row_of(k)), m, k as usize, v as int));
            assert(fits_group_straights(col_indices(col_of(k)), m, k as usize, v as int));
        }
    }
}

/// Skipping a settled cell changes nothing about reachability.
pub proof fn lemma_accept_skip(s: Seq<Cell>, base: Seq<Cell>, idx: int)
    requires
        accepted_from(s, base, idx),
        !decision_cell(base, idx),
    ensures
        accepted_from(s, base, idx + 1),
{
}

/// Board `a` comes before board `b` in the search order: at the first cell
/// where their values differ, `a` holds the smaller digit.
pub open spec fn lex_less(a: Seq<Cell>, b: Seq<Cell>) -> bool {
    exists|i: int|
        0 <= i < 81 && (#[trigger] a[i]).value < b[i].value && (forall|j: int|
            0 <= j < i ==> (#[trigger] a[j]).value == b[j].value)
}

/// Filtering keeps a strictly ascending digit list strictly ascending.
pub proof fn lemma_filter_ascending(s: Seq<i32>, pred: spec_fn(i32) -> bool)
    requires
        forall|a: int, b: int| 0 <= a < b < s.len() ==> s[a] < s[b],
    ensures
        forall|a: int, b: int|
            #![trigger s.filter(pred)[a], s.filter(pred)[b]]
            0 <= a < b < s.filter(pred).len() ==> s.filter(pred)[a] < s.filter(pred)[b],
    decreases s.len(),
{
    reveal(Seq::filter);
    let f = s.filter(pred);
    if s.len() > 0 {
        let dl = s.drop_last();
        assert(forall|t: int| 0 <= t < dl.len() ==> dl[t] == s[t]);
        lemma_filter_ascending(dl, pred);
        let fd = dl.filter(pred);
        assert forall|a: int, b: int| 0 <= a < b < f.len() implies f[a] < f[b] by {
            if pred(s.last()) {
                assert(f == fd.push(s.last()));
                if b < f.len() - 1 {
                    assert(f[a] == fd[a] && f[b] == fd[b]);
                } else {
                    assert(f[b] == s.last());
                    assert(f[a] == fd[a]);
                    dl.lemma_filter_contains_rev(pred, fd[a]);
                    let p = choose|p: int| 0 <= p < dl.len() && dl[p] == fd[a];
                    assert(s[p] < s[s.len() - 1]);
                }
            } else {
                assert(f == fd);
            }
        }
    }
}

/// Two completions of one board that differ at cell `i`, and nowhere among
/// the decision cells before it, are ordered by the digit they hold there.
proof fn lemma_lex_at(a: Seq<Cell>, b: Seq<Cell>, base: Seq<Cell>, i: int)
    requires
        base.len() == 81,
        completes(a, base),
        completes(b, base),
        0 <= i < 81,
        a[i].value < b[i].value,
        forall|j: int| 0 <= j < i && #[trigger] decision_cell(base, j) ==> a[j].value == b[j].value,
    ensures
        lex_less(a, b),
{
    assert forall|j: int| 0 <= j < i implies (#[trigger] a[j]).value == b[j].value by {
        if !decision_cell(base, j) {
            assert(a[j].value == base[j].value);
            assert(b[j].value == base[j].value);
        }
    }
    assert(0 <= i < 81 && a[i].value < b[i].value && (forall|j: int|
        0 <= j < i ==> (#[trigger] a[j]).value == b[j].value));
}

/// A cell has an empty candidate set exactly when no digit at all is a
/// candidate there.
pub proof fn lemma_candidate_seq_empty(cells: Seq<Cell>, j: int)
    ensures
        (candidate_seq(cells, j).len() == 0) <==> (forall|w: i32|
            !is_candidate(cells, j, w as int)),
{
    if candidate_seq(cells, j).len() == 0 {
        assert forall|w: i32| !is_candidate(cells, j, w as int) by {
            if is_candidate(cells, j, w as int) {
                assert(digits()[w - 1] == w);
                digits().lemma_filter_contains(|d: i32| is_candidate(cells, j, d as int), w - 1);
            }
        }
    } else {
        digits().lemma_filter_pred(|d: i32| is_candidate(cells, j, d as int), 0);
        let w0 = candidate_seq(cells, j)[0];
        assert(is_candidate(cells, j, w0 as int));
    }
}

/// An element-by-element copy of a board.
pub fn copy_board(cells: &Vec<Cell>) -> (r: Vec<Cell>)
    ensures
        r@ == cells@,
{
    let n = cells.len();
    let mut r: Vec<Cell> = Vec::new();
    let mut k: usize = 0;
    while k < n
        invariant
            k <= n,
            n == cells@.len(),
            r@ == cells@.take(k as int),
        decreases n - k,
    {
        r.push(cells[k]);
        proof {
            assert(cells@.take(k + 1) =~= cells@.take(k as int).push(cells@[k as int]));
        }
        k += 1;
    }
    proof {
        assert(cells@.take(n as int) =~= cells@);
    }
    r
}

/// Depth-first search over the cells from `idx` on: a black or filled cell
/// needs no decision; an empty white cell tries each of its candidate
/// digits, ascending, and recurses. Every completion reached is recorded in
/// `found`, stopping at two; the board is restored on exit. The recorded
/// boards are pairwise different completions of the current board, and as
/// long as fewer than two have been recorded, every reachable completion is
/// among them: nothing is missed and nothing is counted twice.
fn search(cells: &mut Vec<Cell>, idx: usize, rows_columns: &Vec<Row>, found: &mut Vec<Vec<Cell>>)
    requires
        board_wf(old(cells)@),
        groups_wf(rows_columns@, old(cells)@),
        idx <= 81,
        forall|k: int| 0 <= k < idx ==> !decision_cell(old(cells)@, k),
        old(found)@.len() <= 2,
    ensures
        final(cells)@ == old(cells)@,
        final(found)@.len() >= old(found)@.len(),
        forall|k: int| 0 <= k < old(found)@.len() ==> final(found)@[k] == old(found)@[k],
        final(found)@.len() <= 2,
        forall|k: int|
            old(found)@.len() <= k < final(found)@.len() ==> completes(
                (#[trigger] final(found)@[k])@,
                old(cells)@,
            ) && (board_ok(old(cells)@) ==> board_ok(final(found)@[k]@)),
        (exists|j: int|
            idx <= j < 81 && #[trigger] decision_cell(old(cells)@, j) && candidate_seq(
                old(cells)@,
                j,
            ).len() == 0) ==> final(found)@ == old(found)@,
        ((forall|k: int| idx <= k < 81 ==> !decision_cell(old(cells)@, k)) && old(found)@.len()
            <= 1) ==> final(found)@.len() == old(found)@.len() + 1
            && (final(found)@[old(found)@.len() as int])@ == old(cells)@,
        forall|j: int|
            ((forall|k: int| idx <= k < 81 && #[trigger] decision_cell(old(cells)@, k) ==> k == j)
                && idx <= j < 81 && #[trigger] decision_cell(old(cells)@, j) && candidate_seq(
                old(cells)@,
                j,
            ).len() == 1 && old(found)@.len() == 0) ==> final(found)@.len() == 1
                && (final(found)@[0])@ == old(cells)@.update(
                j,
                set_value(old(cells)@[j], candidate_seq(old(cells)@, j)[0]),
            ),
        final(found)@.len() < 2 ==> forall|s: Seq<Cell>|
            #[trigger] accepted_from(s, old(cells)@, idx as int) ==> exists|t: int|
                old(found)@.len() <= t < final(found)@.len()
                    && (#[trigger] final(found)@[t])@ == s,
        forall|t1: int, t2: int|
            old(found)@.len() <= t1 < t2 < final(found)@.len()
                ==> ((#[trigger] final(found)@[t1])@ != (#[trigger] final(found)@[t2])@),
        forall|t1: int, t2: int|
            old(found)@.len() <= t1 < t2 < final(found)@.len() ==> lex_less(
                (#[trigger] final(found)@[t1])@,
                (#[trigger] final(found)@[t2])@,
            ),
        forall|s: Seq<Cell>|
            (#[trigger] accepted_from(s, old(cells)@, idx as int)) && !(exists|t2: int|
                old(found)@.len() <= t2 < final(found)@.len()
                    && (#[trigger] final(found)@[t2])@ == s) ==> (forall|t: int|
                old(found)@.len() <= t < final(found)@.len() ==> lex_less(
                    (#[trigger] final(found)@[t])@,
                    s,
                )),
    decreases 81 - idx,
{
    let ghost entry = cells@;
    let ghost found0 = found@;
    if idx == 81 {
        if found.len() < 2 {
            let snap = copy_board(cells);
            found.push(snap);
        }
        proof {
            if found@.len() < 2 {
                // everything is decided, so the only reachable completion is
                // the board itself, and it was just recorded
                assert forall|s: Seq<Cell>| #[trigger] accepted_from(s, entry, 81) implies exists|
                    t: int|
                    found0.len() <= t < found@.len() && (#[trigger] found@[t])@ == s by {
                    assert forall|x: int| 0 <= x < 81 implies s[x] == entry[x] by {
                        assert(!decision_cell(entry, x));
                        assert(same_but_value(s[x], entry[x]));
                        assert(s[x].value == entry[x].value);
                        lemma_cell_eq(s[x], entry[x]);
                    }
                    assert(s =~= entry);
                    assert((found@[found0.len() as int])@ == entry);
                }
            }
            // a reachable completion here is the recorded board itself, so
            // none is passed over
            assert forall|s: Seq<Cell>|
                (#[trigger] accepted_from(s, entry, 81)) && !(exists|t2: int|
                    found0.len() <= t2 < found@.len() && (#[trigger] found@[t2])@ == s) implies (
            forall|t: int|
                found0.len() <= t < found@.len() ==> lex_less((#[trigger] found@[t])@, s)) by {
                if found0.len() < found@.len() {
                    assert forall|x: int| 0 <= x < 81 implies s[x] == entry[x] by {
                        assert(!decision_cell(entry, x));
                        assert(same_but_value(s[x], entry[x]));
                        assert(s[x].value == entry[x].value);
                        lemma_cell_eq(s[x], entry[x]);
                    }
                    assert(s =~= entry);
                    assert((found@[found0.len() as int])@ == s);
                    assert(false);
                }
            }
        }
        return ;
    }
    let c = cells[idx];
    if !c.is_white || c.value > 0 {
        search(cells, idx + 1, rows_columns, found);
        proof {
            if exists|j: int|
                idx <= j < 81 && #[trigger] decision_cell(entry, j) && candidate_seq(
                    entry,
                    j,
                ).len() == 0 {
                let j = choose|j: int|
                    idx <= j < 81 && #[trigger] decision_cell(entry, j) && candidate_seq(
                        entry,
                        j,
                    ).len() == 0;
                assert(j != idx);
                assert(idx + 1 <= j < 81 && decision_cell(entry, j) && candidate_seq(
                    entry,
                    j,
                ).len() == 0);
            }
            if found@.len() < 2 {
                assert forall|s: Seq<Cell>| #[trigger] accepted_from(s, entry, idx as int) implies
                    exists|t: int|
                    found0.len() <= t < found@.len() && (#[trigger] found@[t])@ == s by {
                    lemma_accept_skip(s, entry, idx as int);
                    assert(accepted_from(s, entry, (idx + 1) as int));
                }
            }
            assert forall|s: Seq<Cell>|
                (#[trigger] accepted_from(s, entry, idx as int)) && !(exists|t2: int|
                    found0.len() <= t2 < found@.len() && (#[trigger] found@[t2])@ == s) implies (
            forall|t: int|
                found0.len() <= t < found@.len() ==> lex_less((#[trigger] found@[t])@, s)) by {
                lemma_accept_skip(s, entry, idx as int);
                assert(accepted_from(s, entry, (idx + 1) as int));
            }
        }
        return ;
    }
    let ghost gidx = idx as int;
    let possible = compute_possible_values(idx, cells, rows_columns);
    proof {
        assert(forall|a: int, b: int| 0 <= a < b < 9 ==> digits()[a] < digits()[b]);
        lemma_filter_ascending(digits(), |d: i32| is_candidate(entry, gidx, d as int));
    }
    let n = possible.len();
    let mut k: usize = 0;
    while k < n && found.len() < 2
        invariant
            n == possible@.len(),
            possible@ == candidate_seq(entry, gidx),
            gidx == idx as int,
            k <= n,
            idx < 81,
            decision_cell(entry, gidx),
            board_wf(entry),
            groups_wf(rows_columns@, entry),
            forall|t: int| 0 <= t < idx ==> !decision_cell(entry, t),
            k == 0 ==> cells@ == entry,
            k > 0 ==> cells@ == entry.update(gidx, set_value(entry[gidx], possible@[k - 1])),
            found@.len() >= found0.len(),
            found@.len() <= 2,
            forall|t: int| 0 <= t < found0.len() ==> found@[t] == found0[t],
            forall|t: int|
                found0.len() <= t < found@.len() ==> completes((#[trigger] found@[t])@, entry) && (
                board_ok(entry) ==> board_ok(found@[t]@)),
            (exists|j: int|
                gidx <= j < 81 && #[trigger] decision_cell(entry, j) && candidate_seq(
                    entry,
                    j,
                ).len() == 0) ==> found@ == found0,
            ((forall|t: int| gidx <= t < 81 && #[trigger] decision_cell(entry, t) ==> t == gidx)
                && candidate_seq(entry, gidx).len() == 1 && found0.len() == 0) ==> {
                &&& (k == 0 ==> found@ == found0)
                &&& (k > 0 ==> found@.len() == 1 && (found@[0])@ == entry.update(
                    gidx,
                    set_value(entry[gidx], candidate_seq(entry, gidx)[0]),
                ))
            },
            forall|s: Seq<Cell>|
                (#[trigger] accepted_from(s, entry, gidx)) && (exists|k0: int|
                    0 <= k0 < k && possible@[k0] == s[gidx].value) ==> (found@.len() >= 2 || (
                exists|t: int|
                    found0.len() <= t < found@.len() && (#[trigger] found@[t])@ == s)),
            forall|t: int|
                found0.len() <= t < found@.len() ==> (exists|k0: int|
                    0 <= k0 < k && possible@[k0] == (#[trigger] found@[t])@[gidx].value),
            forall|t1: int, t2: int|
                found0.len() <= t1 < t2 < found@.len() ==> ((#[trigger] found@[t1])@ != (
                #[trigger] found@[t2])@),
            forall|a: int, b: int|
                #![trigger possible@[a], possible@[b]]
                0 <= a < b < possible@.len() ==> possible@[a] < possible@[b],
            forall|t1: int, t2: int|
                found0.len() <= t1 < t2 < found@.len() ==> lex_less(
                    (#[trigger] found@[t1])@,
                    (#[trigger] found@[t2])@,
                ),
            forall|s: Seq<Cell>|
                (#[trigger] accepted_from(s, entry, gidx)) && (exists|k0: int|
                    0 <= k0 < k && possible@[k0] == s[gidx].value) && !(exists|t2: int|
                    found0.len() <= t2 < found@.len() && (#[trigger] found@[t2])@ == s) ==> (
                forall|t: int|
                    found0.len() <= t < found@.len() ==> lex_less((#[trigger] found@[t])@, s)),
        decreases n - k,
    {
        let v = possible[k];
        proof {
            digits().lemma_filter_pred(|d: i32| is_candidate(entry, gidx, d as int), k as int);
            assert(is_candidate(entry, gidx, v as int));
            assert(1 <= v <= 9);
        }
        let mut cc = cells[idx];
        cc.value = v;
        cells[idx] = cc;
        let ghost placed = entry.update(gidx, set_value(entry[gidx], v));
        proof {
            assert(cells@ =~= placed);
            assert forall|t: int| 0 <= t < placed.len() implies (#[trigger] placed[t]).wf() by {
                assert(entry[t].wf());
            }
            assert(same_colors(entry, placed));
            lemma_groups_wf_same_colors(rows_columns@, entry, placed);
            if board_ok(entry) {
                lemma_place_preserves_ok(entry, gidx, v);
            }
            assert forall|t: int| 0 <= t < idx + 1 implies !decision_cell(cells@, t) by {
                if t < gidx {
                    assert(!decision_cell(entry, t));
                    assert(cells@[t] == entry[t]);
                } else {
                    assert(cells@[gidx].value == v);
                }
            }
        }
        let ghost found_pre = found@;
        search(cells, idx + 1, rows_columns, found);
        proof {
            // the new completions of the extended board complete this one
            assert forall|t: int| found_pre.len() <= t < found@.len() implies completes(
                (#[trigger] found@[t])@,
                entry,
            ) && (board_ok(entry) ==> board_ok(found@[t]@)) by {
                assert(completes(found@[t]@, placed));
                assert forall|x: int| 0 <= x < entry.len() implies same_but_value(
                    #[trigger] found@[t]@[x],
                    entry[x],
                ) by {
                    assert(same_but_value(found@[t]@[x], placed[x]));
                }
                assert(found@[t]@[gidx].value == v);
            }
            // an empty candidate set elsewhere stays empty on the extended
            // board, so nothing was recorded
            if exists|j: int|
                gidx <= j < 81 && #[trigger] decision_cell(entry, j) && candidate_seq(
                    entry,
                    j,
                ).len() == 0 {
                let j = choose|j: int|
                    gidx <= j < 81 && #[trigger] decision_cell(entry, j) && candidate_seq(
                        entry,
                        j,
                    ).len() == 0;
                assert(j != gidx);
                lemma_candidate_seq_empty(entry, j);
                assert forall|w: i32| !is_candidate(placed, j, w as int) by {
                    if is_candidate(placed, j, w as int) {
                        lemma_place_shrinks(entry, gidx, v, j, w);
                    }
                }
                lemma_candidate_seq_empty(placed, j);
                assert(decision_cell(placed, j));
                assert(idx + 1 <= j < 81 && decision_cell(placed, j) && candidate_seq(
                    placed,
                    j,
                ).len() == 0);
                assert(found@ == found_pre);
            }
            // candidates never repeat, so completions recorded in different
            // iterations differ at this cell, and each one names the digit
            // it placed here
            assert(possible@.no_duplicates()) by {
                assert forall|a: int, b: int| 0 <= a < b < 9 implies digits()[a] != digits()[b]
                    by {}
                assert(digits().no_duplicates());
                lemma_filter_no_dup(digits(), |d: i32| is_candidate(entry, gidx, d as int));
            }
            assert forall|t: int| found0.len() <= t < found@.len() implies (exists|k0: int|
                0 <= k0 < k + 1 && possible@[k0] == (#[trigger] found@[t])@[gidx].value) by {
                if t < found_pre.len() {
                    let k0 = choose|k0: int|
                        0 <= k0 < k && possible@[k0] == (found_pre[t])@[gidx].value;
                    assert(found@[t] == found_pre[t]);
                    assert(0 <= k0 < k + 1 && possible@[k0] == found@[t]@[gidx].value);
                } else {
                    assert(completes(found@[t]@, placed));
                    assert(!decision_cell(placed, gidx));
                    assert(found@[t]@[gidx].value == v);
                    assert(possible@[k as int] == v);
                    let kk = k as int;
                    assert(0 <= kk < k + 1 && possible@[kk] == found@[t]@[gidx].value);
                }
            }
            assert forall|t1: int, t2: int| found0.len() <= t1 < t2 < found@.len() implies ((
            #[trigger] found@[t1])@ != (#[trigger] found@[t2])@) by {
                if t2 < found_pre.len() {
                    assert(found@[t1] == found_pre[t1] && found@[t2] == found_pre[t2]);
                } else if t1 >= found_pre.len() {
                } else {
                    let k0 = choose|k0: int|
                        0 <= k0 < k && possible@[k0] == (found_pre[t1])@[gidx].value;
                    assert(found@[t1] == found_pre[t1]);
                    assert(completes(found@[t2]@, placed));
                    assert(!decision_cell(placed, gidx));
                    assert(found@[t2]@[gidx].value == v);
                    assert(possible@[k as int] == v);
                    assert(possible@[k0] != possible@[k as int]);
                    assert(found@[t1]@[gidx].value != found@[t2]@[gidx].value);
                }
            }
            // the recorded completions grow in search order: within one
            // iteration by the inner call, across iterations by the digit
            // placed at this cell
            assert forall|t1: int, t2: int| found0.len() <= t1 < t2 < found@.len() implies
                lex_less((#[trigger] found@[t1])@, (#[trigger] found@[t2])@) by {
                if t2 < found_pre.len() {
                    assert(found@[t1] == found_pre[t1] && found@[t2] == found_pre[t2]);
                } else if t1 >= found_pre.len() {
                } else {
                    let k1 = choose|k1: int|
                        0 <= k1 < k && possible@[k1] == (found_pre[t1])@[gidx].value;
                    assert(found@[t1] == found_pre[t1]);
                    assert(completes(found@[t1]@, entry));
                    assert(completes(found@[t2]@, entry));
                    assert(found@[t2]@[gidx].value == v);
                    assert(possible@[k1] < possible@[k as int]);
                    assert(found@[t1]@[gidx].value < found@[t2]@[gidx].value);
                    lemma_lex_at(found@[t1]@, found@[t2]@, entry, gidx);
                }
            }
            // a reachable completion that was passed over without being
            // recorded is greater than everything recorded
            assert forall|s: Seq<Cell>|
                ((#[trigger] accepted_from(s, entry, gidx)) && (exists|k0: int|
                    0 <= k0 < k + 1 && possible@[k0] == s[gidx].value) && !(exists|t2: int|
                    found0.len() <= t2 < found@.len() && (#[trigger] found@[t2])@ == s)) implies (
            forall|t: int|
                found0.len() <= t < found@.len() ==> lex_less((#[trigger] found@[t])@, s)) by {
                let k0 = choose|k0: int| 0 <= k0 < k + 1 && possible@[k0] == s[gidx].value;
                if k0 < k {
                    // an earlier iteration recorded it: its digit was tried
                    // while fewer than two solutions were known
                    assert(found_pre.len() < 2);
                    if !(exists|t2: int|
                        found0.len() <= t2 < found_pre.len() && (#[trigger] found_pre[t2])@
                            == s) {
                        assert(false);
                    }
                    let t2 = choose|t2: int|
                        found0.len() <= t2 < found_pre.len() && (#[trigger] found_pre[t2])@ == s;
                    assert(found@[t2] == found_pre[t2]);
                    assert((found@[t2])@ == s);
                    assert(false);
                } else {
                    // this very iteration explored its subtree
                    assert(possible@[k as int] == v);
                    assert(s[gidx].value == v);
                    lemma_accept_step(s, entry, gidx);
                    assert(accepted_from(s, placed, (idx + 1) as int));
                    assert(!(exists|t2: int|
                        found_pre.len() <= t2 < found@.len() && (#[trigger] found@[t2])@ == s));
                    assert forall|t: int| found0.len() <= t < found@.len() implies lex_less(
                        (#[trigger] found@[t])@,
                        s,
                    ) by {
                        if t < found_pre.len() {
                            let k1 = choose|k1: int|
                                0 <= k1 < k && possible@[k1] == (found_pre[t])@[gidx].value;
                            assert(found@[t] == found_pre[t]);
                            assert(completes(found@[t]@, entry));
                            assert(completes(s, entry));
                            assert(possible@[k1] < possible@[k as int]);
                            assert(found@[t]@[gidx].value < s[gidx].value);
                            lemma_lex_at(found@[t]@, s, entry, gidx);
                        }
                    }
                }
            }
            // a completion whose digit at this cell was already tried is
            // recorded, unless two solutions ended the search
            assert forall|s: Seq<Cell>|
                (#[trigger] accepted_from(s, entry, gidx)) && (exists|k0: int|
                    0 <= k0 < k + 1 && possible@[k0] == s[gidx].value) implies (found@.len() >= 2
                || (exists|t: int|
                    found0.len() <= t < found@.len() && (#[trigger] found@[t])@ == s)) by {
                let k0 = choose|k0: int| 0 <= k0 < k + 1 && possible@[k0] == s[gidx].value;
                if found@.len() < 2 {
                    if k0 < k {
                        assert(found_pre.len() < 2);
                        let t = choose|t: int|
                            found0.len() <= t < found_pre.len() && (#[trigger] found_pre[t])@
                                == s;
                        assert(found@[t] == found_pre[t]);
                        assert((found@[t])@ == s);
                    } else {
                        assert(possible@[k as int] == v);
                        assert(s[gidx].value == v);
                        lemma_accept_step(s, entry, gidx);
                        assert(accepted_from(s, placed, gidx + 1));
                        assert(accepted_from(s, placed, (idx + 1) as int));
                        let t = choose|t: int|
                            found_pre.len() <= t < found@.len() && (#[trigger] found@[t])@ == s;
                        assert((found@[t])@ == s);
                    }
                }
            }
            // when this is the only undecided cell and it has one candidate,
            // the recursion below has nothing left to decide and records
            // exactly the completed board
            if (forall|t: int| gidx <= t < 81 && #[trigger] decision_cell(entry, t) ==> t == gidx)
                && candidate_seq(entry, gidx).len() == 1 && found0.len() == 0 {
                assert(n == 1 && k == 0);
                assert(found_pre == found0);
                assert forall|t: int| idx + 1 <= t < 81 implies !decision_cell(placed, t) by {
                    if decision_cell(placed, t) {
                        assert(decision_cell(entry, t));
                    }
                }
                assert(found@.len() == 1);
                assert((found@[0])@ == placed);
            }
        }
        k += 1;
    }
    let mut cc = cells[idx];
    cc.value = -1;
    cells[idx] = cc;
    proof {
        assert(entry[gidx].wf());
        assert(entry[gidx].value == -1);
        assert(set_value(entry[gidx], -1i32) == entry[gidx]);
        if k == 0 {
            assert(cells@ =~= entry);
        } else {
            assert(cells@ =~= entry);
        }
        // every reachable completion tries one of the candidates at this
        // cell, so the loop has seen it
        if found@.len() < 2 {
            assert(k == n);
            assert forall|s: Seq<Cell>| #[trigger] accepted_from(s, entry, gidx) implies (exists|
                t: int|
                found0.len() <= t < found@.len() && (#[trigger] found@[t])@ == s) by {
                lemma_accept_step(s, entry, gidx);
                assert(is_candidate(entry, gidx, s[gidx].value as int));
                assert(1 <= s[gidx].value <= 9);
                assert(digits()[s[gidx].value - 1] == s[gidx].value);
                digits().lemma_filter_contains(
                    |d: i32| is_candidate(entry, gidx, d as int),
                    s[gidx].value - 1,
                );
                assert(possible@.contains(s[gidx].value));
                let k0 = choose|k0: int|
                    0 <= k0 < possible@.len() && possible@[k0] == s[gidx].value;
                assert(exists|k1: int| 0 <= k1 < k && possible@[k1] == s[gidx].value);
            }
        }
        // a reachable completion not recorded is greater than everything
        // recorded: either its branch was explored, or its digit comes
        // after every digit whose branch was
        assert forall|s: Seq<Cell>|
            ((#[trigger] accepted_from(s, entry, gidx)) && !(exists|t2: int|
                found0.len() <= t2 < found@.len() && (#[trigger] found@[t2])@ == s)) implies (
        forall|t: int|
            found0.len() <= t < found@.len() ==> lex_less((#[trigger] found@[t])@, s)) by {
            lemma_accept_step(s, entry, gidx);
            assert(is_candidate(entry, gidx, s[gidx].value as int));
            assert(digits()[s[gidx].value - 1] == s[gidx].value);
            digits().lemma_filter_contains(
                |d: i32| is_candidate(entry, gidx, d as int),
                s[gidx].value - 1,
            );
            assert(possible@.contains(s[gidx].value));
            let k0 = choose|k0: int| 0 <= k0 < possible@.len() && possible@[k0] == s[gidx].value;
            if k0 < k {
            } else {
                assert(found@.len() >= 2);
                assert forall|t: int| found0.len() <= t < found@.len() implies lex_less(
                    (#[trigger] found@[t])@,
                    s,
                ) by {
                    let k1 = choose|k1: int|
                        0 <= k1 < k && possible@[k1] == (#[trigger] found@[t])@[gidx].value;
                    assert(k1 < k0);
                    assert(possible@[k1] < possible@[k0]);
                    assert(completes(found@[t]@, entry));
                    assert(completes(s, entry));
                    lemma_lex_at(found@[t]@, s, entry, gidx);
                }
            }
        }
        // the one-cell case: the loop ran its single candidate to the end
        assert forall|j: int|
            ((forall|t: int| gidx <= t < 81 && #[trigger] decision_cell(entry, t) ==> t == gidx)
                && gidx <= j < 81 && #[trigger] decision_cell(entry, j) && candidate_seq(
                entry,
                j,
            ).len() == 1 && found0.len() == 0) implies found@.len() == 1 && (found@[0])@
            == entry.update(j, set_value(entry[j], candidate_seq(entry, j)[0])) by {
            assert(j == gidx);
            assert(n == 1);
            assert(k == 1);
        }
    }
}

/// Solve a board by exhaustive backtracking over its cells in index order,
/// candidates ascending, and report whether it has no solution, exactly one,
/// or at least two. The carried board is the first solution in search order:
/// a full assignment that keeps every filled or black cell of the input and,
/// when the input board broke no rule, breaks none either.
///
/// The verdict is exact. `NoSolution` means no rule-respecting completion of
/// the board exists at all; `Unique` means the carried board is the only
/// one; `Multiple` means a second, different completion exists, and the
/// carried board is the least rule-respecting completion in search order
/// (by values, in cell index order) — so on a board that breaks no rule,
/// verdict and witness are functions of the board alone. Moreover, a
/// board with an empty white cell admitting no candidate digit has no
/// solution; a board whose only empty white cell admits exactly one
/// candidate has exactly that completion placed; and a board with no empty
/// white cell is its own unique solution.
pub fn solve_backtrack(cells: Vec<Cell>) -> (r: Str8tsSolution)
    requires
        board_wf(cells@),
    ensures
        r matches Str8tsSolution::Unique(s) ==> completes(s@, cells@) && (board_ok(cells@)
            ==> board_ok(s@)),
        r matches Str8tsSolution::Multiple(s) ==> completes(s@, cells@) && (board_ok(cells@)
            ==> board_ok(s@)),
        (exists|j: int|
            0 <= j < 81 && #[trigger] decision_cell(cells@, j) && candidate_seq(cells@, j).len()
                == 0) ==> r is NoSolution,
        forall|j: int|
            ((forall|k: int| 0 <= k < 81 && #[trigger] decision_cell(cells@, k) ==> k == j) && 0
                <= j < 81 && #[trigger] decision_cell(cells@, j) && candidate_seq(
                cells@,
                j,
            ).len() == 1) ==> (r matches Str8tsSolution::Unique(s) && s@ == cells@.update(
                j,
                set_value(cells@[j], candidate_seq(cells@, j)[0]),
            )),
        (forall|k: int| 0 <= k < 81 ==> !decision_cell(cells@, k)) ==> (r matches
            Str8tsSolution::Unique(s) && s@ == cells@),
        r is NoSolution ==> forall|s: Seq<Cell>| #[trigger] completes(s, cells@) ==> !board_ok(s),
        r matches Str8tsSolution::Unique(u) ==> forall|s: Seq<Cell>|
            #[trigger] completes(s, cells@) && board_ok(s) ==> s == u@,
        r matches Str8tsSolution::Multiple(u) ==> exists|s2: Seq<Cell>|
            #[trigger] completes(s2, cells@) && s2 != u@ && (board_ok(cells@) ==> board_ok(s2)),
        r matches Str8tsSolution::Multiple(u) ==> forall|s: Seq<Cell>|
            #[trigger] completes(s, cells@) && board_ok(s) && s != u@ ==> lex_less(u@, s),
{
    let ghost input = cells@;
    let mut work = cells;
    let rows_columns = compute_rows_columns(&work);
    let mut found: Vec<Vec<Cell>> = Vec::new();
    search(&mut work, 0, &rows_columns, &mut found);
    let ghost found_all = found@;
    if found.len() == 0 {
        proof {
            // an exhausted search with nothing recorded leaves no
            // rule-respecting completion at all
            assert forall|s: Seq<Cell>| #[trigger] completes(s, input) implies !board_ok(s) by {
                if board_ok(s) {
                    lemma_solution_accepted(s, input);
                    assert(accepted_from(s, input, 0));
                    assert(false);
                }
            }
        }
        Str8tsSolution::NoSolution
    } else {
        let first = found.remove(0);
        if found.len() == 0 {
            proof {
                // one record and an exhausted search: every rule-respecting
                // completion is that record
                assert forall|s: Seq<Cell>| #[trigger] completes(s, input) && board_ok(s) implies s
                    == first@ by {
                    lemma_solution_accepted(s, input);
                    assert(accepted_from(s, input, 0));
                    let t = choose|t: int| 0 <= t < found_all.len() && (found_all[t])@ == s;
                    assert(t == 0);
                }
            }
            Str8tsSolution::Unique(first)
        } else {
            proof {
                // a second record is a second, different completion
                assert(found_all.len() == 2);
                assert(completes((found_all[1])@, input));
                assert((found_all[1])@ != (found_all[0])@);
                assert(first@ == (found_all[0])@);
                // and every other rule-respecting completion comes after the
                // carried one in search order: it was either the second
                // record or passed over once two solutions were in hand
                assert forall|s: Seq<Cell>|
                    #[trigger] completes(s, input) && board_ok(s) && s != first@ implies lex_less(
                    first@,
                    s,
                ) by {
                    lemma_solution_accepted(s, input);
                    if exists|t2: int|
                        0 <= t2 < found_all.len() && (#[trigger] found_all[t2])@ == s {
                        let t2 = choose|t2: int|
                            0 <= t2 < found_all.len() && (#[trigger] found_all[t2])@ == s;
                        assert(t2 == 1);
                        assert(lex_less((found_all[0])@, (found_all[1])@));
                    } else {
                        assert(lex_less((found_all[0])@, s));
                    }
                }
            }
            Str8tsSolution::Multiple(first)
        }
    }
}

/// A board index lies only in its own row group and its own column group.
pub proof fn lemma_only_own_groups(g: int, i: int)
    requires
        0 <= g < 18,
        0 <= i < 81,
        group_indices(g).contains(i as usize),
    ensures
        g < 9 ==> g == row_of(i),
        g >= 9 ==> g == 9 + col_of(i),
{
    let t = choose|t: int| 0 <= t < group_indices(g).len() && group_indices(g)[t] == i as usize;
    if g < 9 {
        assert(9 * g + t == i);
    } else {
        assert((g - 9) + 9 * t == i);
    }
}

} // verus!
