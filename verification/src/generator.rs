use vstd::prelude::*;
use crate::cell::Cell;
use crate::cell::board_wf;
use crate::group::Row;
use crate::group::occ;
use crate::group::straights_spec;
use crate::group::straight_invalid;
use crate::group::min_filled;
use crate::group::max_filled;
use crate::group::has_filled;
use crate::group::white_at;
use crate::group::lemma_filter_subpred;
use crate::group::lemma_min_max_props;
use crate::board::group_indices;
use crate::board::groups_wf;
use crate::board::is_candidate;
use crate::board::candidate_seq;
use crate::board::lemma_group_indices_ok;
use crate::board::compute_rows_columns;
use crate::board::compute_possible_values;
use crate::board::random_board;
use crate::solver::Str8tsSolution;
use crate::solver::board_ok;
use crate::solver::group_ok;
use crate::solver::completes;
use crate::solver::decision_cell;
use crate::solver::same_colors;
use crate::solver::set_value;
use crate::solver::copy_board;
use crate::solver::solve_backtrack;
use crate::solver::lemma_straights_same_colors;
use crate::solver::lemma_groups_wf_same_colors;
use crate::solver::lemma_place_preserves_ok;
use crate::solver::lemma_straight_elems;
use crate::rng::random_below;

verus! {

/// Percent probability that a cell is pre-seeded as a fixed clue before the
/// driving loop; configuration, currently off.
const P_FIXED_PERCENT: u32 = 0;

/// Percent probability of accepting an empty black cell as a filled black
/// clue when tightening an under-constrained board.
const P_FILL_BLACK_PERCENT: u32 = 30;

/// Percent probability that a cell of a fresh board is white.
const P_WHITE_PERCENT: u32 = 60;

/// A board with no digit at all breaks no rule.
pub proof fn lemma_empty_board_ok(cells: Seq<Cell>)
    requires
        cells.len() == 81,
        forall|i: int| 0 <= i < 81 ==> (#[trigger] cells[i]).value <= 0,
    ensures
        board_ok(cells),
{
    assert forall|g: int| 0 <= g < 18 implies #[trigger] group_ok(group_indices(g), cells) by {
        let row = group_indices(g);
        lemma_group_indices_ok(g);
        assert forall|v: i32| 1 <= v <= 9 implies (#[trigger] occ(row, cells, v)).len() <= 1 by {
            if occ(row, cells, v).len() > 0 {
                row.lemma_filter_pred(|x: usize| cells[x as int].value == v, 0);
                let x = occ(row, cells, v)[0];
                row.lemma_filter_contains_rev(|y: usize| cells[y as int].value == v, x);
                let p = choose|p: int| 0 <= p < row.len() && row[p] == x;
                assert(cells[row[p] as int].value <= 0);
                assert(false);
            }
        }
        assert forall|j: int| 0 <= j < straights_spec(row, cells).len() implies !straight_invalid(
            #[trigger] straights_spec(row, cells)[j],
            cells,
        ) by {
            let s = straights_spec(row, cells)[j];
            lemma_straight_elems(row, cells, j);
            if has_filled(s, cells) {
                let t = choose|t: int| 0 <= t < s.len() && cells[#[trigger] s[t] as int].value > 0;
                let p = choose|p: int| 0 <= p < row.len() && row[p] == s[t];
                assert(false);
            }
        }
    }
}

/// A board whose filled cells all agree with a rule-respecting board of the
/// same colours breaks no rule either: emptying cells never hurts.
pub proof fn lemma_sub_board_ok(b1: Seq<Cell>, b2: Seq<Cell>)
    requires
        b1.len() == 81,
        same_colors(b1, b2),
        forall|i: int|
            0 <= i < 81 && (#[trigger] b1[i]).value > 0 ==> b2[i].value == b1[i].value,
        board_wf(b1),
        board_wf(b2),
        board_ok(b2),
    ensures
        board_ok(b1),
{
    assert forall|g: int| 0 <= g < 18 implies #[trigger] group_ok(group_indices(g), b1) by {
        let row = group_indices(g);
        lemma_group_indices_ok(g);
        assert(group_ok(group_indices(g), b2));
        assert forall|v: i32| 1 <= v <= 9 implies (#[trigger] occ(row, b1, v)).len() <= 1 by {
            assert forall|t: int|
                0 <= t < row.len() && (|x: usize| b1[x as int].value == v)(
                    #[trigger] row[t],
                ) implies (|x: usize| b2[x as int].value == v)(row[t]) by {}
            lemma_filter_subpred(
                row,
                |x: usize| b1[x as int].value == v,
                |x: usize| b2[x as int].value == v,
            );
            assert(occ(row, b2, v).len() <= 1);
        }
        assert forall|t: int| 0 <= t < row.len() implies white_at(b1, #[trigger] row[t])
            == white_at(b2, row[t]) by {}
        lemma_straights_same_colors(row, b1, b2);
        assert forall|j: int| 0 <= j < straights_spec(row, b1).len() implies !straight_invalid(
            #[trigger] straights_spec(row, b1)[j],
            b1,
        ) by {
            let s = straights_spec(row, b1)[j];
            assert(straights_spec(row, b2)[j] == s);
            assert(!straight_invalid(s, b2));
            lemma_straight_elems(row, b1, j);
            assert forall|t: int| 0 <= t < s.len() implies (#[trigger] s[t]) < 81 && b1[s[t] as int].wf()
                && b2[s[t] as int].wf() by {
                let p = choose|p: int| 0 <= p < row.len() && row[p] == s[t];
            }
            lemma_min_max_props(s, b1);
            lemma_min_max_props(s, b2);
            if has_filled(s, b1) {
                let tn = choose|t: int|
                    0 <= t < s.len() && b1[#[trigger] s[t] as int].value == min_filled(s, b1);
                let tx = choose|t: int|
                    0 <= t < s.len() && b1[#[trigger] s[t] as int].value == max_filled(s, b1);
                assert(b2[s[tn] as int].value == min_filled(s, b1));
                assert(b2[s[tx] as int].value == max_filled(s, b1));
                assert(has_filled(s, b2));
                assert(min_filled(s, b2) <= min_filled(s, b1));
                assert(max_filled(s, b1) <= max_filled(s, b2));
            }
        }
    }
}

/// The working board of the generator: 81 well-formed cells obeying every
/// rule, where precisely the fixed cells hold a digit.
pub open spec fn clue_board(cells: Seq<Cell>) -> bool {
    &&& cells.len() == 81
    &&& board_wf(cells)
    &&& board_ok(cells)
    &&& forall|i: int| 0 <= i < 81 ==> ((#[trigger] cells[i]).is_fixed <==> cells[i].value > 0)
}

/// Whether the cell may not serve as the next clue: it is already fixed, or
/// the witness solution gives it no digit and it is white, has no candidate,
/// or loses the random gate for filling a black cell.
fn clue_rejected(cells: &Vec<Cell>, sol: &Vec<Cell>, rows_columns: &Vec<Row>, ci: usize) -> (r:
    bool)
    requires
        board_wf(cells@),
        groups_wf(rows_columns@, cells@),
        ci < 81,
        sol@.len() == 81,
        board_wf(sol@),
    ensures
        !r ==> !cells@[ci as int].is_fixed && (sol@[ci as int].value > 0 || (!cells@[
            ci as int].is_white && candidate_seq(cells@, ci as int).len() > 0)),
{
    let c = cells[ci];
    if c.is_fixed {
        return true;
    }
    if sol[ci].value > 0 {
        return false;
    }
    if c.is_white {
        return true;
    }
    let pv = compute_possible_values(ci, cells, rows_columns);
    if pv.len() == 0 {
        return true;
    }
    if random_below(100) >= P_FILL_BLACK_PERCENT {
        return true;
    }
    false
}

/// Drive a random board towards a puzzle with exactly one solution, with
/// the usual colouring probability.
pub fn generate_puzzle() -> (r: Option<Vec<Cell>>)
    ensures
        r matches Some(b) ==> {
            &&& b@.len() == 81
            &&& board_wf(b@)
            &&& board_ok(b@)
            &&& forall|i: int|
                0 <= i < 81 ==> ((!(#[trigger] b@[i]).is_fixed ==> b@[i].value == -1) && (
                b@[i].is_fixed ==> 1 <= b@[i].value <= 9))
            &&& exists|sol: Seq<Cell>|
                completes(sol, b@) && board_ok(sol) && (forall|s2: Seq<Cell>|
                    #[trigger] completes(s2, b@) && board_ok(s2) ==> s2 == sol)
        },
{
    generate_puzzle_with(P_WHITE_PERCENT)
}

/// Drive a random board towards a puzzle with exactly one solution: colour
/// a fresh board with the given percent probability of white, then solve,
/// and while the solution is not unique either lift the most recently added
/// clue (no solution) or fix one more cell from the witness solution (more
/// than one), up to a fixed budget. On success the returned board keeps the
/// digits of its fixed cells only: a well-formed, rule-respecting clue
/// layout with exactly one rule-respecting full completion. Failure is a
/// normal outcome; the caller may simply try again.
#[verifier::rlimit(50)]
pub fn generate_puzzle_with(p_white_percent: u32) -> (r: Option<Vec<Cell>>)
    ensures
        r matches Some(b) ==> {
            &&& b@.len() == 81
            &&& board_wf(b@)
            &&& board_ok(b@)
            &&& forall|i: int|
                0 <= i < 81 ==> ((!(#[trigger] b@[i]).is_fixed ==> b@[i].value == -1) && (
                b@[i].is_fixed ==> 1 <= b@[i].value <= 9))
            &&& exists|sol: Seq<Cell>|
                completes(sol, b@) && board_ok(sol) && (forall|s2: Seq<Cell>|
                    #[trigger] completes(s2, b@) && board_ok(s2) ==> s2 == sol)
        },
        p_white_percent == 0 ==> r is Some,
{
    let mut cells = random_board(0, p_white_percent);
    let rows_columns = compute_rows_columns(&cells);
    proof {
        lemma_empty_board_ok(cells@);
    }
    let mut fixed_indices: Vec<usize> = Vec::new();

    // optional pre-seeding of fixed clues; the probability is configuration
    // and currently zero
    let mut i: usize = 0;
    while i < 81
        invariant
            i <= 81,
            clue_board(cells@),
            groups_wf(rows_columns@, cells@),
            forall|t: int| 0 <= t < fixed_indices@.len() ==> #[trigger] fixed_indices@[t] < 81,
            p_white_percent == 0 ==> (forall|t: int|
                0 <= t < 81 ==> !(#[trigger] cells@[t]).is_white),
        decreases 81 - i,
    {
        if random_below(100) < P_FIXED_PERCENT {
            let possible = compute_possible_values(i, &cells, &rows_columns);
            proof {
                crate::group::digits().lemma_filter_len(
                    |d: i32| is_candidate(cells@, i as int, d as int),
                );
            }
            if possible.len() > 0 {
                let pick = random_below(possible.len() as u32) as usize;
                let v = possible[pick];
                proof {
                    crate::group::digits().lemma_filter_pred(
                        |d: i32| is_candidate(cells@, i as int, d as int),
                        pick as int,
                    );
                    assert(is_candidate(cells@, i as int, v as int));
                    assert(!cells@[i as int].is_fixed);
                    lemma_place_preserves_ok(cells@, i as int, v);
                }
                let ghost before = cells@;
                let mut c = cells[i];
                c.value = v;
                c.is_fixed = true;
                cells[i] = c;
                fixed_indices.push(i);
                proof {
                    let placed = before.update(i as int, set_value(before[i as int], v));
                    assert forall|t: int| 0 <= t < 81 implies (#[trigger] cells@[t]).wf()
                        && (cells@[t].is_fixed <==> cells@[t].value > 0) by {
                        if t != i {
                            assert(cells@[t] == before[t]);
                        }
                    }
                    assert forall|g: int| 0 <= g < 18 implies #[trigger] group_ok(
                        group_indices(g),
                        cells@,
                    ) by {
                        lemma_group_indices_ok(g);
                        assert(group_ok(group_indices(g), placed));
                        assert forall|w: i32| 1 <= w <= 9 implies (#[trigger] occ(
                            group_indices(g),
                            cells@,
                            w,
                        )).len() <= 1 by {
                            assert(occ(group_indices(g), cells@, w) == occ(
                                group_indices(g),
                                placed,
                                w,
                            )) by {
                                crate::group::lemma_filter_congruent(
                                    group_indices(g),
                                    |x: usize| cells@[x as int].value == w,
                                    |x: usize| placed[x as int].value == w,
                                );
                            }
                        }
                        assert forall|t: int| 0 <= t < group_indices(g).len() implies white_at(
                            cells@,
                            #[trigger] group_indices(g)[t],
                        ) == white_at(placed, group_indices(g)[t]) by {}
                        lemma_straights_same_colors(group_indices(g), cells@, placed);
                        assert forall|jj: int|
                            0 <= jj < straights_spec(group_indices(g), cells@).len() implies
                            !straight_invalid(
                                #[trigger] straights_spec(group_indices(g), cells@)[jj],
                                cells@,
                            ) by {
                            let s = straights_spec(group_indices(g), cells@)[jj];
                            assert(!straight_invalid(s, placed));
                            assert forall|t: int| 0 <= t < s.len() implies cells@[(
                            #[trigger] s[t]) as int].value == placed[s[t] as int].value by {}
                            crate::solver::lemma_min_max_same_values(s, cells@, placed);
                        }
                    }
                    assert(same_colors(before, cells@));
                    lemma_groups_wf_same_colors(rows_columns@, before, cells@);
                }
            }
        }
        i += 1;
    }

    // the driving loop: solve, then tighten or loosen the clue set
    let mut solution: Option<Vec<Cell>> = None;
    let mut failed = false;
    let mut iter: usize = 0;
    while iter < 1000 && solution.is_none() && !failed
        invariant
            clue_board(cells@),
            groups_wf(rows_columns@, cells@),
            forall|t: int| 0 <= t < fixed_indices@.len() ==> #[trigger] fixed_indices@[t] < 81,
            solution matches Some(s) ==> completes(s@, cells@) && board_ok(s@) && board_wf(s@)
                && (forall|s2: Seq<Cell>|
                #[trigger] completes(s2, cells@) && board_ok(s2) ==> s2 == s@),
            p_white_percent == 0 ==> (forall|t: int|
                0 <= t < 81 ==> !(#[trigger] cells@[t]).is_white),
            p_white_percent == 0 ==> !failed && (solution is None ==> iter == 0),
        decreases 1000 - iter,
    {
        let snapshot = copy_board(&cells);
        let outcome = solve_backtrack(snapshot);
        proof {
            if p_white_percent == 0 {
                assert forall|t: int| 0 <= t < 81 implies !decision_cell(cells@, t) by {
                    assert(!cells@[t].is_white);
                }
                assert(outcome matches Str8tsSolution::Unique(s) && s@ == cells@);
            }
        }
        match outcome {
            Str8tsSolution::NoSolution => {
                // over-constrained: lift the most recently added clue
                if fixed_indices.len() > 0 {
                    let ci = fixed_indices[fixed_indices.len() - 1];
                    fixed_indices.pop();
                    let ghost before = cells@;
                    let mut c = cells[ci];
                    c.value = -1;
                    c.is_fixed = false;
                    cells[ci] = c;
                    proof {
                        assert forall|t: int| 0 <= t < 81 implies (#[trigger] cells@[t]).wf() && (
                        cells@[t].is_fixed <==> cells@[t].value > 0) by {
                            if t != ci {
                                assert(cells@[t] == before[t]);
                            }
                        }
                        assert(same_colors(cells@, before));
                        lemma_sub_board_ok(cells@, before);
                        lemma_groups_wf_same_colors(rows_columns@, before, cells@);
                    }
                } else {
                    // not solvable even without clues: give up
                    failed = true;
                }
            },
            Str8tsSolution::Unique(sol) => {
                proof {
                    assert(completes(sol@, cells@));
                    assert forall|x: int| 0 <= x < 81 implies (#[trigger] sol@[x]).wf() by {
                        if !decision_cell(cells@, x) {
                            assert(sol@[x].value == cells@[x].value);
                            assert(cells@[x].wf());
                        }
                    }
                }
                solution = Some(sol);
            },
            Str8tsSolution::Multiple(sol) => {
                // under-constrained: fix one more cell from the witness
                proof {
                    assert(completes(sol@, cells@));
                    assert(board_ok(sol@));
                    assert forall|x: int| 0 <= x < 81 implies (#[trigger] sol@[x]).wf() by {
                        if !decision_cell(cells@, x) {
                            assert(sol@[x].value == cells@[x].value);
                            assert(cells@[x].wf());
                        }
                    }
                }
                let mut cell_index = random_below(81) as usize;
                let mut tries: usize = 0;
                let mut gave_up = false;
                loop
                    invariant_except_break
                        tries <= 1000,
                        cell_index < 81,
                        !gave_up,
                        clue_board(cells@),
                        groups_wf(rows_columns@, cells@),
                        sol@.len() == 81,
                        board_wf(sol@),
                    ensures
                        cell_index < 81,
                        clue_board(cells@),
                        groups_wf(rows_columns@, cells@),
                        sol@.len() == 81,
                        board_wf(sol@),
                        !gave_up ==> !cells@[cell_index as int].is_fixed && (sol@[
                            cell_index as int].value > 0 || (!cells@[cell_index as int].is_white
                            && candidate_seq(cells@, cell_index as int).len() > 0)),
                    decreases 1001 - tries,
                {
                    if !clue_rejected(&cells, &sol, &rows_columns, cell_index) {
                        break ;
                    }
                    if tries >= 1000 {
                        gave_up = true;
                        break ;
                    }
                    cell_index = random_below(81) as usize;
                    tries += 1;
                }
                if gave_up {
                    // no eligible cell was found in time: give up
                    failed = true;
                } else {
                    let ghost before = cells@;
                    let sv = sol[cell_index].value;
                    let new_value: i32;
                    if sv > 0 {
                        new_value = sv;
                    } else {
                        let pv = compute_possible_values(cell_index, &cells, &rows_columns);
                        proof {
                            crate::group::digits().lemma_filter_len(
                                |d: i32| is_candidate(cells@, cell_index as int, d as int),
                            );
                        }
                        let pick = random_below(pv.len() as u32) as usize;
                        new_value = pv[pick];
                        proof {
                            crate::group::digits().lemma_filter_pred(
                                |d: i32| is_candidate(cells@, cell_index as int, d as int),
                                pick as int,
                            );
                        }
                    }
                    proof {
                        if sv <= 0 {
                            assert(is_candidate(before, cell_index as int, new_value as int));
                            lemma_place_preserves_ok(before, cell_index as int, new_value);
                        }
                    }
                    let mut c = cells[cell_index];
                    c.value = new_value;
                    c.is_fixed = true;
                    cells[cell_index] = c;
                    fixed_indices.push(cell_index);
                    proof {
                        let placed = before.update(
                            cell_index as int,
                            set_value(before[cell_index as int], new_value),
                        );
                        assert(completes(sol@, before));
                        assert forall|t: int| 0 <= t < 81 implies (#[trigger] cells@[t]).wf() && (
                        cells@[t].is_fixed <==> cells@[t].value > 0) by {
                            if t != cell_index {
                                assert(cells@[t] == before[t]);
                            } else {
                                if sv > 0 {
                                    assert(sol@[t].wf());
                                }
                            }
                        }
                        if sv > 0 {
                            // the placed digit comes from the witness
                            // solution, of which the new board is a part
                            assert(same_colors(cells@, sol@));
                            assert forall|t: int|
                                0 <= t < 81 && (#[trigger] cells@[t]).value > 0 implies sol@[t].value
                                == cells@[t].value by {
                                if t != cell_index {
                                    assert(cells@[t] == before[t]);
                                    assert(!decision_cell(before, t));
                                }
                            }
                            lemma_sub_board_ok(cells@, sol@);
                        } else {
                            // only the fixed flag differs from the board the
                            // placement lemma spoke of
                            assert(same_colors(cells@, placed));
                            assert forall|t: int| 0 <= t < 81 implies (#[trigger] placed[t]).wf()
                                && cells@[t].value == placed[t].value by {
                                assert(before[t].wf());
                                if t != cell_index {
                                    assert(cells@[t] == before[t]);
                                }
                            }
                            lemma_sub_board_ok(cells@, placed);
                        }
                        assert(same_colors(before, cells@));
                        lemma_groups_wf_same_colors(rows_columns@, before, cells@);
                    }
                }
            },
        }
        iter += 1;
    }

    match solution {
        Option::Some(sol) => {
            let ghost solved = sol@;
            let ghost base = cells@;
            // the clue layout is the delivered puzzle: keep the fixed
            // digits, clear everything else
            let mut out = sol;
            let mut t: usize = 0;
            while t < 81
                invariant
                    t <= 81,
                    out@.len() == 81,
                    solved.len() == 81,
                    completes(solved, base),
                    clue_board(base),
                    board_ok(solved),
                    board_wf(solved),
                    forall|x: int| t <= x < 81 ==> #[trigger] out@[x] == solved[x],
                    forall|x: int|
                        0 <= x < t ==> #[trigger] out@[x] == (if solved[x].is_fixed {
                            solved[x]
                        } else {
                            set_value(solved[x], -1i32)
                        }),
                decreases 81 - t,
            {
                let c = out[t];
                if !c.is_fixed {
                    let mut cc = c;
                    cc.value = -1;
                    out[t] = cc;
                }
                t += 1;
            }
            proof {
                let b = out@;
                assert forall|x: int| 0 <= x < 81 implies (#[trigger] b[x]).wf() && (!b[x].is_fixed
                    ==> b[x].value == -1) && (b[x].is_fixed ==> 1 <= b[x].value <= 9) by {
                    assert(b[x] == (if solved[x].is_fixed {
                        solved[x]
                    } else {
                        set_value(solved[x], -1i32)
                    }));
                    assert(solved[x].wf());
                    assert(base[x].wf());
                    assert(crate::cell::same_but_value(solved[x], base[x]));
                    if solved[x].is_fixed {
                        assert(b[x] == solved[x]);
                        assert(base[x].is_fixed);
                        assert(base[x].value > 0);
                        assert(!decision_cell(base, x));
                        assert(b[x].value == base[x].value);
                        assert(1 <= b[x].value <= 9);
                    } else {
                        assert(b[x].value == -1);
                    }
                }
                // the witness solution completes the delivered puzzle
                assert forall|x: int| 0 <= x < 81 implies crate::cell::same_but_value(
                    #[trigger] solved[x],
                    b[x],
                ) by {}
                assert forall|x: int| 0 <= x < 81 && !decision_cell(b, x) implies (
                #[trigger] solved[x]).value == b[x].value by {
                    if !b[x].is_white {
                        if !b[x].is_fixed {
                            assert(b[x].value == -1);
                            assert(!decision_cell(base, x));
                            assert(solved[x].value == base[x].value);
                            assert(base[x].wf());
                            assert(!base[x].is_fixed);
                            assert(base[x].value <= 0);
                            assert(base[x].value == -1);
                        }
                    }
                }
                assert forall|x: int| 0 <= x < 81 && decision_cell(b, x) implies 1 <= (
                #[trigger] solved[x]).value <= 9 by {}
                assert(completes(solved, b));
                // and the puzzle itself breaks no rule
                assert(same_colors(b, solved));
                assert forall|x: int| 0 <= x < 81 && (#[trigger] b[x]).value > 0 implies
                    solved[x].value == b[x].value by {}
                lemma_sub_board_ok(b, solved);
                // the delivered board is exactly the clue board the solver
                // judged uniquely solvable, so its completion is unique too
                assert forall|x: int| 0 <= x < 81 implies b[x] == base[x] by {
                    assert(b[x] == (if solved[x].is_fixed {
                        solved[x]
                    } else {
                        set_value(solved[x], -1i32)
                    }));
                    assert(crate::cell::same_but_value(solved[x], base[x]));
                    assert(base[x].wf());
                    if solved[x].is_fixed {
                        assert(base[x].is_fixed);
                        assert(!decision_cell(base, x));
                        assert(b[x].value == base[x].value);
                        crate::solver::lemma_cell_eq(b[x], base[x]);
                    } else {
                        assert(!base[x].is_fixed);
                        assert(!(base[x].value > 0));
                        assert(base[x].value == -1);
                        assert(b[x].value == -1);
                        crate::solver::lemma_cell_eq(b[x], base[x]);
                    }
                }
                assert(b =~= base);
            }
            Some(out)
        },
        Option::None => {
            proof {
                if p_white_percent == 0 {
                    assert(false);
                }
            }
            None
        },
    }
}

} // verus!
