use vstd::prelude::*;
use crate::cell::Cell;
use crate::cell::board_wf;
use crate::cell::same_but_flags;
use crate::group::Row;
use crate::group::occ;
use crate::group::dup_sets;
use crate::group::bad_straights;
use crate::group::straight_views;
use crate::group::straights_spec;
use crate::group::straight_invalid;
use crate::group::white_at;
use crate::group::lemma_filter_congruent;
use crate::board::group_indices;
use crate::board::groups_wf;
use crate::board::lemma_group_indices_ok;
use crate::solver::group_ok;
use crate::solver::board_ok;
use crate::solver::lemma_straights_same_colors;
use crate::solver::lemma_min_max_same_values;
use crate::solver::lemma_straight_elems;

verus! {

/// Some row or column holds the digit of cell `i` twice or more, once in
/// cell `i` itself.
pub open spec fn dup_at(cells: Seq<Cell>, i: int) -> bool {
    exists|g: int, v: i32|
        0 <= g < 18 && 1 <= v <= 9 && (#[trigger] occ(group_indices(g), cells, v)).len() >= 2
            && occ(group_indices(g), cells, v).contains(i as usize)
}

/// Cell `i` lies in a straight whose filled digits span its cell count.
pub open spec fn straight_bad_at(cells: Seq<Cell>, i: int) -> bool {
    exists|g: int, j: int|
        0 <= g < 18 && 0 <= j < straights_spec(group_indices(g), cells).len() && straight_invalid(
            #[trigger] straights_spec(group_indices(g), cells)[j],
            cells,
        ) && straights_spec(group_indices(g), cells)[j].contains(i as usize)
}

/// Like `dup_at`, but counting only the groups before `g`.
pub open spec fn dup_upto(cells: Seq<Cell>, i: int, g: int) -> bool {
    exists|h: int, v: i32|
        0 <= h < g && 1 <= v <= 9 && (#[trigger] occ(group_indices(h), cells, v)).len() >= 2 && occ(
            group_indices(h),
            cells,
            v,
        ).contains(i as usize)
}

/// Like `straight_bad_at`, but counting only the groups before `g`.
pub open spec fn straight_bad_upto(cells: Seq<Cell>, i: int, g: int) -> bool {
    exists|h: int, j: int|
        0 <= h < g && 0 <= j < straights_spec(group_indices(h), cells).len() && straight_invalid(
            #[trigger] straights_spec(group_indices(h), cells)[j],
            cells,
        ) && straights_spec(group_indices(h), cells)[j].contains(i as usize)
}

/// Two boards with the same values and colours have the same occurrence
/// lists, the same straights, and the same rule breaches in every group.
pub proof fn lemma_same_data_groups(c1: Seq<Cell>, c2: Seq<Cell>)
    requires
        c1.len() == 81,
        c2.len() == 81,
        forall|i: int|
            0 <= i < 81 ==> (#[trigger] c1[i]).value == c2[i].value && c1[i].is_white
                == c2[i].is_white,
    ensures
        forall|g: int, v: i32|
            0 <= g < 18 ==> #[trigger] occ(group_indices(g), c1, v) == occ(
                group_indices(g),
                c2,
                v,
            ),
        forall|g: int|
            0 <= g < 18 ==> #[trigger] straights_spec(group_indices(g), c1) == straights_spec(
                group_indices(g),
                c2,
            ),
        forall|g: int, j: int|
            0 <= g < 18 && 0 <= j < straights_spec(group_indices(g), c1).len()
                ==> straight_invalid(#[trigger] straights_spec(group_indices(g), c1)[j], c1)
                == straight_invalid(straights_spec(group_indices(g), c1)[j], c2),
{
    assert forall|g: int, v: i32| 0 <= g < 18 implies #[trigger] occ(group_indices(g), c1, v)
        == occ(group_indices(g), c2, v) by {
        let row = group_indices(g);
        lemma_group_indices_ok(g);
        assert forall|t: int|
            0 <= t < row.len() implies (|x: usize| c1[x as int].value == v)(#[trigger] row[t]) == (
            |x: usize| c2[x as int].value == v)(row[t]) by {}
        lemma_filter_congruent(
            row,
            |x: usize| c1[x as int].value == v,
            |x: usize| c2[x as int].value == v,
        );
    }
    assert forall|g: int| 0 <= g < 18 implies #[trigger] straights_spec(group_indices(g), c1)
        == straights_spec(group_indices(g), c2) by {
        let row = group_indices(g);
        lemma_group_indices_ok(g);
        assert forall|t: int| 0 <= t < row.len() implies white_at(c1, #[trigger] row[t])
            == white_at(c2, row[t]) by {}
        lemma_straights_same_colors(row, c1, c2);
    }
    assert forall|g: int, j: int|
        0 <= g < 18 && 0 <= j < straights_spec(group_indices(g), c1).len() implies straight_invalid(
        #[trigger] straights_spec(group_indices(g), c1)[j],
        c1,
    ) == straight_invalid(straights_spec(group_indices(g), c1)[j], c2) by {
        let row = group_indices(g);
        let s = straights_spec(row, c1)[j];
        lemma_group_indices_ok(g);
        lemma_straight_elems(row, c1, j);
        assert forall|t: int| 0 <= t < s.len() implies c1[(#[trigger] s[t]) as int].value == c2[
            s[t] as int].value by {
            let p = choose|p: int| 0 <= p < row.len() && row[p] == s[t];
        }
        lemma_min_max_same_values(s, c1, c2);
    }
}

/// A cell index lies in one of the group's duplicate sets exactly when some
/// digit occurs at it and at least once more in the group.
proof fn lemma_dup_sets_char(row: Seq<usize>, cells: Seq<Cell>, x: usize)
    ensures
        (exists|a: int|
            0 <= a < dup_sets(row, cells).len() && (#[trigger] dup_sets(row, cells)[a]).contains(
                x,
            )) <==> (exists|v: i32|
            1 <= v <= 9 && (#[trigger] occ(row, cells, v)).len() >= 2 && occ(
                row,
                cells,
                v,
            ).contains(x)),
{
    let occs = Seq::new(9, |k: int| occ(row, cells, (k + 1) as i32));
    let ds = dup_sets(row, cells);
    if exists|a: int| 0 <= a < ds.len() && (#[trigger] ds[a]).contains(x) {
        let a = choose|a: int| 0 <= a < ds.len() && (#[trigger] ds[a]).contains(x);
        occs.lemma_filter_pred(|s: Seq<usize>| s.len() >= 2, a);
        occs.lemma_filter_contains_rev(|s: Seq<usize>| s.len() >= 2, ds[a]);
        let k = choose|k: int| 0 <= k < occs.len() && occs[k] == ds[a];
        assert(occ(row, cells, (k + 1) as i32).len() >= 2 && occ(row, cells, (k + 1) as i32)
            .contains(x));
        assert(1 <= (k + 1) as i32 <= 9);
    }
    if exists|v: i32|
        1 <= v <= 9 && (#[trigger] occ(row, cells, v)).len() >= 2 && occ(row, cells, v).contains(
            x,
        ) {
        let v = choose|v: i32|
            1 <= v <= 9 && (#[trigger] occ(row, cells, v)).len() >= 2 && occ(
                row,
                cells,
                v,
            ).contains(x);
        assert(occs[v - 1] == occ(row, cells, v));
        occs.lemma_filter_contains(|s: Seq<usize>| s.len() >= 2, v - 1);
        let a = choose|a: int| 0 <= a < ds.len() && ds[a] == occ(row, cells, v);
        assert(ds[a].contains(x));
    }
}

/// A cell index lies in one of the listed invalid straights exactly when
/// some straight of the list holds it and breaks the range rule.
proof fn lemma_bad_straights_char(ss: Seq<Seq<usize>>, cells: Seq<Cell>, x: usize)
    ensures
        (exists|a: int|
            0 <= a < bad_straights(ss, cells).len() && (#[trigger] bad_straights(
                ss,
                cells,
            )[a]).contains(x)) <==> (exists|j: int|
            0 <= j < ss.len() && straight_invalid(#[trigger] ss[j], cells) && ss[j].contains(x)),
{
    let bs = bad_straights(ss, cells);
    if exists|a: int| 0 <= a < bs.len() && (#[trigger] bs[a]).contains(x) {
        let a = choose|a: int| 0 <= a < bs.len() && (#[trigger] bs[a]).contains(x);
        ss.lemma_filter_pred(|s: Seq<usize>| straight_invalid(s, cells), a);
        ss.lemma_filter_contains_rev(|s: Seq<usize>| straight_invalid(s, cells), bs[a]);
        let j = choose|j: int| 0 <= j < ss.len() && ss[j] == bs[a];
        assert(straight_invalid(ss[j], cells) && ss[j].contains(x));
    }
    if exists|j: int|
        0 <= j < ss.len() && straight_invalid(#[trigger] ss[j], cells) && ss[j].contains(x) {
        let j = choose|j: int|
            0 <= j < ss.len() && straight_invalid(#[trigger] ss[j], cells) && ss[j].contains(x);
        ss.lemma_filter_contains(|s: Seq<usize>| straight_invalid(s, cells), j);
        let a = choose|a: int| 0 <= a < bs.len() && bs[a] == ss[j];
        assert(bs[a].contains(x));
    }
}

/// Every index in a duplicate set is an index of the group.
proof fn lemma_dup_sets_elems(row: Seq<usize>, cells: Seq<Cell>, a: int)
    requires
        0 <= a < dup_sets(row, cells).len(),
    ensures
        forall|u: int|
            0 <= u < dup_sets(row, cells)[a].len() ==> row.contains(
                #[trigger] dup_sets(row, cells)[a][u],
            ),
{
    let occs = Seq::new(9, |k: int| occ(row, cells, (k + 1) as i32));
    let ds = dup_sets(row, cells);
    occs.lemma_filter_pred(|s: Seq<usize>| s.len() >= 2, a);
    occs.lemma_filter_contains_rev(|s: Seq<usize>| s.len() >= 2, ds[a]);
    let k = choose|k: int| 0 <= k < occs.len() && occs[k] == ds[a];
    assert(ds[a] == occ(row, cells, (k + 1) as i32));
    assert forall|u: int| 0 <= u < ds[a].len() implies row.contains(#[trigger] ds[a][u]) by {
        row.lemma_filter_contains_rev(
            |x: usize| cells[x as int].value == (k + 1) as i32,
            ds[a][u],
        );
    }
}

/// Clear the row-validity flag of every listed cell, touching nothing else.
fn clear_row_flags(cells: &mut Vec<Cell>, set: &Vec<usize>)
    requires
        old(cells)@.len() == 81,
        forall|t: int| 0 <= t < set@.len() ==> #[trigger] set@[t] < 81,
    ensures
        final(cells)@.len() == 81,
        forall|i: int|
            0 <= i < 81 ==> {
                &&& same_but_flags(#[trigger] final(cells)@[i], old(cells)@[i])
                &&& final(cells)@[i].is_valid_in_straight == old(cells)@[i].is_valid_in_straight
                &&& final(cells)@[i].is_valid_in_row == (old(cells)@[i].is_valid_in_row
                    && !set@.contains(i as usize))
            },
{
    let n = set.len();
    let mut t: usize = 0;
    while t < n
        invariant
            t <= n,
            n == set@.len(),
            cells@.len() == 81,
            forall|u: int| 0 <= u < set@.len() ==> #[trigger] set@[u] < 81,
            forall|i: int|
                0 <= i < 81 ==> {
                    &&& same_but_flags(#[trigger] cells@[i], old(cells)@[i])
                    &&& cells@[i].is_valid_in_straight == old(cells)@[i].is_valid_in_straight
                    &&& cells@[i].is_valid_in_row == (old(cells)@[i].is_valid_in_row && !set@.take(
                        t as int,
                    ).contains(i as usize))
                },
        decreases n - t,
    {
        let p = set[t];
        let mut c = cells[p];
        c.is_valid_in_row = false;
        cells[p] = c;
        proof {
            assert forall|i: int| 0 <= i < 81 implies (#[trigger] cells@[i]).is_valid_in_row == (
            old(cells)@[i].is_valid_in_row && !set@.take(t + 1).contains(i as usize)) by {
                assert(set@.take(t + 1) =~= set@.take(t as int).push(set@[t as int]));
                if i == p as int {
                    assert(set@.take(t + 1)[t as int] == set@[t as int]);
                    assert(set@.take(t + 1).contains(i as usize));
                }
                if set@.take(t as int).contains(i as usize) {
                    let u = choose|u: int|
                        0 <= u < t && #[trigger] set@.take(t as int)[u] == i as usize;
                    assert(set@.take(t + 1)[u] == i as usize);
                }
                if set@.take(t + 1).contains(i as usize) && i != p {
                    let u = choose|u: int|
                        0 <= u < t + 1 && #[trigger] set@.take(t + 1)[u] == i as usize;
                    assert(u < t);
                    assert(set@.take(t as int)[u] == i as usize);
                }
            }
        }
        t += 1;
    }
    proof {
        assert(set@.take(n as int) =~= set@);
    }
}

/// Clear the straight-validity flag of every listed cell, touching nothing
/// else.
fn clear_straight_flags(cells: &mut Vec<Cell>, set: &Vec<usize>)
    requires
        old(cells)@.len() == 81,
        forall|t: int| 0 <= t < set@.len() ==> #[trigger] set@[t] < 81,
    ensures
        final(cells)@.len() == 81,
        forall|i: int|
            0 <= i < 81 ==> {
                &&& same_but_flags(#[trigger] final(cells)@[i], old(cells)@[i])
                &&& final(cells)@[i].is_valid_in_row == old(cells)@[i].is_valid_in_row
                &&& final(cells)@[i].is_valid_in_straight == (old(
                    cells,
                )@[i].is_valid_in_straight && !set@.contains(i as usize))
            },
{
    let n = set.len();
    let mut t: usize = 0;
    while t < n
        invariant
            t <= n,
            n == set@.len(),
            cells@.len() == 81,
            forall|u: int| 0 <= u < set@.len() ==> #[trigger] set@[u] < 81,
            forall|i: int|
                0 <= i < 81 ==> {
                    &&& same_but_flags(#[trigger] cells@[i], old(cells)@[i])
                    &&& cells@[i].is_valid_in_row == old(cells)@[i].is_valid_in_row
                    &&& cells@[i].is_valid_in_straight == (old(cells)@[i].is_valid_in_straight
                        && !set@.take(t as int).contains(i as usize))
                },
        decreases n - t,
    {
        let p = set[t];
        let mut c = cells[p];
        c.is_valid_in_straight = false;
        cells[p] = c;
        proof {
            assert forall|i: int| 0 <= i < 81 implies (
            #[trigger] cells@[i]).is_valid_in_straight == (old(
                cells,
            )@[i].is_valid_in_straight && !set@.take(t + 1).contains(i as usize)) by {
                assert(set@.take(t + 1) =~= set@.take(t as int).push(set@[t as int]));
                if i == p as int {
                    assert(set@.take(t + 1)[t as int] == set@[t as int]);
                    assert(set@.take(t + 1).contains(i as usize));
                }
                if set@.take(t as int).contains(i as usize) {
                    let u = choose|u: int|
                        0 <= u < t && #[trigger] set@.take(t as int)[u] == i as usize;
                    assert(set@.take(t + 1)[u] == i as usize);
                }
                if set@.take(t + 1).contains(i as usize) && i != p {
                    let u = choose|u: int|
                        0 <= u < t + 1 && #[trigger] set@.take(t + 1)[u] == i as usize;
                    assert(u < t);
                    assert(set@.take(t as int)[u] == i as usize);
                }
            }
        }
        t += 1;
    }
    proof {
        assert(set@.take(n as int) =~= set@);
    }
}

/// Check the whole board and paint the validity flags: reset every flag,
/// then let each of the eighteen groups mark its duplicate digits and its
/// broken straights. A cell's row flag ends false exactly when its digit
/// stands in at least one other cell of its row or column; its straight
/// flag ends false exactly when it lies in a straight whose filled digits
/// span the straight's cell count. Nothing else of any cell changes, and
/// the result says whether the whole board currently breaks no rule.
pub fn validate_board(cells: &mut Vec<Cell>, rows_columns: &Vec<Row>) -> (ok: bool)
    requires
        board_wf(old(cells)@),
        groups_wf(rows_columns@, old(cells)@),
    ensures
        final(cells)@.len() == 81,
        forall|i: int|
            0 <= i < 81 ==> same_but_flags(#[trigger] final(cells)@[i], old(cells)@[i]),
        forall|i: int|
            0 <= i < 81 ==> (#[trigger] final(cells)@[i]).is_valid_in_row == !dup_at(
                old(cells)@,
                i,
            ),
        forall|i: int|
            0 <= i < 81 ==> (#[trigger] final(cells)@[i]).is_valid_in_straight == !straight_bad_at(
                old(cells)@,
                i,
            ),
        ok == board_ok(old(cells)@),
{
    let ghost orig = old(cells)@;
    // reset both flags everywhere
    let mut i: usize = 0;
    while i < 81
        invariant
            i <= 81,
            cells@.len() == 81,
            orig == old(cells)@,
            orig.len() == 81,
            forall|t: int| i <= t < 81 ==> #[trigger] cells@[t] == orig[t],
            forall|t: int|
                0 <= t < i ==> same_but_flags(#[trigger] cells@[t], orig[t])
                    && cells@[t].is_valid_in_row && cells@[t].is_valid_in_straight,
        decreases 81 - i,
    {
        let mut c = cells[i];
        c.is_valid_in_row = true;
        c.is_valid_in_straight = true;
        cells[i] = c;
        i += 1;
    }

    // mark what each group finds
    let mut g: usize = 0;
    while g < 18
        invariant
            g <= 18,
            cells@.len() == 81,
            orig == old(cells)@,
            orig.len() == 81,
            board_wf(orig),
            groups_wf(rows_columns@, orig),
            forall|t: int| 0 <= t < 81 ==> same_but_flags(#[trigger] cells@[t], orig[t]),
            forall|t: int|
                0 <= t < 81 ==> (#[trigger] cells@[t]).is_valid_in_row == !dup_upto(
                    orig,
                    t,
                    g as int,
                ),
            forall|t: int|
                0 <= t < 81 ==> (#[trigger] cells@[t]).is_valid_in_straight == !straight_bad_upto(
                    orig,
                    t,
                    g as int,
                ),
        decreases 18 - g,
    {
        let ghost cur = cells@;
        let ghost grow = group_indices(g as int);
        proof {
            lemma_same_data_groups(orig, cur);
            assert(crate::solver::same_colors(orig, cur));
            crate::solver::lemma_groups_wf_same_colors(rows_columns@, orig, cur);
            assert forall|t: int| 0 <= t < 81 implies (#[trigger] cur[t]).wf() by {
                assert(orig[t].wf());
            }
            lemma_group_indices_ok(g as int);
        }
        let grp = &rows_columns[g];
        let res = grp.validate(cells);
        proof {
            assert(grp.row_cells@ == grow);
            assert(straight_views(grp.straights@) == straights_spec(grow, cur));
        }
        match res {
            Option::Some(p) => {
                let (mo, isv) = p;
                let ghost pre = cells@;
                proof {
                    assert(straight_views(mo@) == dup_sets(grow, cur));
                    assert(straight_views(isv@) == bad_straights(
                        straight_views(grp.straights@),
                        cur,
                    ));
                }
                // cells whose digit repeats in this group
                let mut a: usize = 0;
                while a < mo.len()
                    invariant
                        a <= mo@.len(),
                        cells@.len() == 81,
                        pre.len() == 81,
                        straight_views(mo@) == dup_sets(grow, cur),
                        forall|u: int| 0 <= u < grow.len() ==> #[trigger] grow[u] < 81,
                        forall|t: int|
                            0 <= t < 81 ==> same_but_flags(#[trigger] cells@[t], pre[t])
                                && cells@[t].is_valid_in_straight == pre[t].is_valid_in_straight,
                        forall|t: int|
                            0 <= t < 81 ==> (#[trigger] cells@[t]).is_valid_in_row == (
                            pre[t].is_valid_in_row && !(exists|a2: int|
                                0 <= a2 < a && (#[trigger] mo@[a2])@.contains(t as usize))),
                    decreases mo@.len() - a,
                {
                    proof {
                        assert(mo@[a as int]@ == dup_sets(grow, cur)[a as int]);
                        lemma_dup_sets_elems(grow, cur, a as int);
                        assert forall|u: int| 0 <= u < mo@[a as int]@.len() implies #[trigger] mo@[
                            a as int]@[u] < 81 by {
                            assert(grow.contains(mo@[a as int]@[u]));
                            let q = choose|q: int|
                                0 <= q < grow.len() && grow[q] == mo@[a as int]@[u];
                        }
                    }
                    let ghost mid = cells@;
                    clear_row_flags(cells, &mo[a]);
                    proof {
                        assert forall|t: int| 0 <= t < 81 implies (
                        #[trigger] cells@[t]).is_valid_in_row == (pre[t].is_valid_in_row && !(
                        exists|a2: int|
                            0 <= a2 < a + 1 && (#[trigger] mo@[a2])@.contains(t as usize))) by {
                            if exists|a2: int|
                                0 <= a2 < a && (#[trigger] mo@[a2])@.contains(t as usize) {
                                let a2 = choose|a2: int|
                                    0 <= a2 < a && (#[trigger] mo@[a2])@.contains(t as usize);
                                assert(0 <= a2 < a + 1 && mo@[a2]@.contains(t as usize));
                            }
                            if mo@[a as int]@.contains(t as usize) {
                                let aa = a as int;
                                assert(0 <= aa < a + 1 && mo@[aa]@.contains(t as usize));
                            }
                            if (exists|a2: int|
                                0 <= a2 < a + 1 && (#[trigger] mo@[a2])@.contains(t as usize)) && !(
                            exists|a2: int|
                                0 <= a2 < a && (#[trigger] mo@[a2])@.contains(t as usize)) {
                                let a2 = choose|a2: int|
                                    0 <= a2 < a + 1 && (#[trigger] mo@[a2])@.contains(t as usize);
                                assert(a2 == a as int);
                            }
                        }
                    }
                    a += 1;
                }
                // cells of straights that break the range rule
                let ghost pre2 = cells@;
                let mut b: usize = 0;
                while b < isv.len()
                    invariant
                        b <= isv@.len(),
                        cells@.len() == 81,
                        pre2.len() == 81,
                        straight_views(isv@) == bad_straights(straights_spec(grow, cur), cur),
                        groups_wf(rows_columns@, cur),
                        grow == group_indices(g as int),
                        0 <= g < 18,
                        forall|t: int|
                            0 <= t < 81 ==> same_but_flags(#[trigger] cells@[t], pre2[t])
                                && cells@[t].is_valid_in_row == pre2[t].is_valid_in_row,
                        forall|t: int|
                            0 <= t < 81 ==> (#[trigger] cells@[t]).is_valid_in_straight == (
                            pre2[t].is_valid_in_straight && !(exists|b2: int|
                                0 <= b2 < b && (#[trigger] isv@[b2])@.contains(t as usize))),
                    decreases isv@.len() - b,
                {
                    proof {
                        let ss = straights_spec(grow, cur);
                        assert(isv@[b as int]@ == bad_straights(ss, cur)[b as int]);
                        ss.lemma_filter_contains_rev(
                            |s: Seq<usize>| straight_invalid(s, cur),
                            bad_straights(ss, cur)[b as int],
                        );
                        let j = choose|j: int|
                            0 <= j < ss.len() && ss[j] == bad_straights(ss, cur)[b as int];
                        lemma_straight_elems(grow, cur, j);
                        lemma_group_indices_ok(g as int);
                        assert forall|u: int| 0 <= u < isv@[b as int]@.len() implies #[trigger] isv@[
                            b as int]@[u] < 81 by {}
                    }
                    clear_straight_flags(cells, &isv[b]);
                    proof {
                        assert forall|t: int| 0 <= t < 81 implies (
                        #[trigger] cells@[t]).is_valid_in_straight == (
                        pre2[t].is_valid_in_straight && !(exists|b2: int|
                            0 <= b2 < b + 1 && (#[trigger] isv@[b2])@.contains(t as usize))) by {
                            if exists|b2: int|
                                0 <= b2 < b && (#[trigger] isv@[b2])@.contains(t as usize) {
                                let b2 = choose|b2: int|
                                    0 <= b2 < b && (#[trigger] isv@[b2])@.contains(t as usize);
                                assert(0 <= b2 < b + 1 && isv@[b2]@.contains(t as usize));
                            }
                            if isv@[b as int]@.contains(t as usize) {
                                let bb = b as int;
                                assert(0 <= bb < b + 1 && isv@[bb]@.contains(t as usize));
                            }
                            if (exists|b2: int|
                                0 <= b2 < b + 1 && (#[trigger] isv@[b2])@.contains(t as usize)) && !(
                            exists|b2: int|
                                0 <= b2 < b && (#[trigger] isv@[b2])@.contains(t as usize)) {
                                let b2 = choose|b2: int|
                                    0 <= b2 < b + 1 && (#[trigger] isv@[b2])@.contains(t as usize);
                                assert(b2 == b as int);
                            }
                        }
                    }
                    b += 1;
                }
                // fold this group's marks into the totals
                proof {
                    assert forall|t: int| 0 <= t < 81 implies (
                    #[trigger] cells@[t]).is_valid_in_row == !dup_upto(orig, t, g + 1) by {
                        lemma_dup_sets_char(grow, cur, t as usize);
                        assert((exists|a2: int|
                            0 <= a2 < mo@.len() && (#[trigger] mo@[a2])@.contains(t as usize))
                            <==> (exists|a2: int|
                            0 <= a2 < dup_sets(grow, cur).len() && (#[trigger] dup_sets(
                                grow,
                                cur,
                            )[a2]).contains(t as usize))) by {
                            assert(forall|a2: int|
                                0 <= a2 < mo@.len() ==> (#[trigger] mo@[a2])@ == dup_sets(
                                    grow,
                                    cur,
                                )[a2]);
                        }
                        if dup_upto(orig, t, g + 1) && !dup_upto(orig, t, g as int) {
                            let (h, v) = choose|h: int, v: i32|
                                0 <= h < g + 1 && 1 <= v <= 9 && (#[trigger] occ(
                                    group_indices(h),
                                    orig,
                                    v,
                                )).len() >= 2 && occ(group_indices(h), orig, v).contains(
                                    t as usize,
                                );
                            assert(h == g as int);
                            assert(occ(grow, cur, v) == occ(grow, orig, v));
                        }
                        if exists|v: i32|
                            1 <= v <= 9 && (#[trigger] occ(grow, cur, v)).len() >= 2 && occ(
                                grow,
                                cur,
                                v,
                            ).contains(t as usize) {
                            let v = choose|v: i32|
                                1 <= v <= 9 && (#[trigger] occ(grow, cur, v)).len() >= 2 && occ(
                                    grow,
                                    cur,
                                    v,
                                ).contains(t as usize);
                            assert(occ(group_indices(g as int), orig, v) == occ(grow, cur, v));
                            assert(dup_upto(orig, t, g + 1));
                        }
                    }
                    assert forall|t: int| 0 <= t < 81 implies (
                    #[trigger] cells@[t]).is_valid_in_straight == !straight_bad_upto(
                        orig,
                        t,
                        g + 1,
                    ) by {
                        let ss = straights_spec(grow, cur);
                        lemma_bad_straights_char(ss, cur, t as usize);
                        assert((exists|b2: int|
                            0 <= b2 < isv@.len() && (#[trigger] isv@[b2])@.contains(t as usize))
                            <==> (exists|b2: int|
                            0 <= b2 < bad_straights(ss, cur).len() && (#[trigger] bad_straights(
                                ss,
                                cur,
                            )[b2]).contains(t as usize))) by {
                            assert(forall|b2: int|
                                0 <= b2 < isv@.len() ==> (#[trigger] isv@[b2])@ == bad_straights(
                                    ss,
                                    cur,
                                )[b2]);
                        }
                        if straight_bad_upto(orig, t, g + 1) && !straight_bad_upto(
                            orig,
                            t,
                            g as int,
                        ) {
                            let (h, j) = choose|h: int, j: int|
                                0 <= h < g + 1 && 0 <= j < straights_spec(
                                    group_indices(h),
                                    orig,
                                ).len() && straight_invalid(
                                    #[trigger] straights_spec(group_indices(h), orig)[j],
                                    orig,
                                ) && straights_spec(group_indices(h), orig)[j].contains(
                                    t as usize,
                                );
                            assert(h == g as int);
                            assert(straights_spec(group_indices(h), orig) == ss);
                        }
                        if exists|j: int|
                            0 <= j < ss.len() && straight_invalid(#[trigger] ss[j], cur)
                                && ss[j].contains(t as usize) {
                            let j = choose|j: int|
                                0 <= j < ss.len() && straight_invalid(#[trigger] ss[j], cur)
                                    && ss[j].contains(t as usize);
                            assert(straights_spec(group_indices(g as int), orig) == ss);
                            assert(straight_invalid(straights_spec(group_indices(g as int), orig)[j], orig));
                            assert(straight_bad_upto(orig, t, g + 1));
                        }
                    }
                }
            },
            Option::None => {
                proof {
                    assert forall|t: int| 0 <= t < 81 implies (
                    #[trigger] cells@[t]).is_valid_in_row == !dup_upto(orig, t, g + 1) by {
                        if dup_upto(orig, t, g + 1) && !dup_upto(orig, t, g as int) {
                            let (h, v) = choose|h: int, v: i32|
                                0 <= h < g + 1 && 1 <= v <= 9 && (#[trigger] occ(
                                    group_indices(h),
                                    orig,
                                    v,
                                )).len() >= 2 && occ(group_indices(h), orig, v).contains(
                                    t as usize,
                                );
                            assert(h == g as int);
                            assert(occ(grow, cur, v) == occ(grow, orig, v));
                            assert(occ(grow, cur, v).len() <= 1);
                            assert(false);
                        }
                    }
                    assert forall|t: int| 0 <= t < 81 implies (
                    #[trigger] cells@[t]).is_valid_in_straight == !straight_bad_upto(
                        orig,
                        t,
                        g + 1,
                    ) by {
                        if straight_bad_upto(orig, t, g + 1) && !straight_bad_upto(
                            orig,
                            t,
                            g as int,
                        ) {
                            let (h, j) = choose|h: int, j: int|
                                0 <= h < g + 1 && 0 <= j < straights_spec(
                                    group_indices(h),
                                    orig,
                                ).len() && straight_invalid(
                                    #[trigger] straights_spec(group_indices(h), orig)[j],
                                    orig,
                                ) && straights_spec(group_indices(h), orig)[j].contains(
                                    t as usize,
                                );
                            assert(h == g as int);
                            assert(straights_spec(group_indices(h), orig) == straights_spec(
                                grow,
                                cur,
                            ));
                            assert(straight_views(grp.straights@)[j] == straights_spec(
                                grow,
                                cur,
                            )[j]);
                            assert(grp.straights@[j]@ == straights_spec(grow, cur)[j]);
                            assert(!straight_invalid(grp.straights@[j]@, cur));
                            assert(false);
                        }
                    }
                }
            },
        }
        g += 1;
    }

    // the board is valid exactly when every flag stayed true
    proof {
        assert forall|t: int| 0 <= t < 81 implies (#[trigger] cells@[t]).is_valid_in_row
            == !dup_at(orig, t) && cells@[t].is_valid_in_straight == !straight_bad_at(orig, t) by {
            assert(dup_upto(orig, t, 18) == dup_at(orig, t));
            assert(straight_bad_upto(orig, t, 18) == straight_bad_at(orig, t));
        }
    }
    let mut all_ok = true;
    let mut t: usize = 0;
    while t < 81
        invariant
            t <= 81,
            cells@.len() == 81,
            all_ok == forall|u: int|
                0 <= u < t ==> (#[trigger] cells@[u]).is_valid_in_row
                    && cells@[u].is_valid_in_straight,
        decreases 81 - t,
    {
        let c = cells[t];
        if !c.is_valid_in_row || !c.is_valid_in_straight {
            all_ok = false;
        }
        t += 1;
    }
    proof {
        if board_ok(orig) {
            assert forall|u: int| 0 <= u < 81 implies (#[trigger] cells@[u]).is_valid_in_row
                && cells@[u].is_valid_in_straight by {
                if dup_at(orig, u) {
                    let (h, v) = choose|h: int, v: i32|
                        0 <= h < 18 && 1 <= v <= 9 && (#[trigger] occ(
                            group_indices(h),
                            orig,
                            v,
                        )).len() >= 2 && occ(group_indices(h), orig, v).contains(u as usize);
                    assert(group_ok(group_indices(h), orig));
                    assert(false);
                }
                if straight_bad_at(orig, u) {
                    let (h, j) = choose|h: int, j: int|
                        0 <= h < 18 && 0 <= j < straights_spec(group_indices(h), orig).len()
                            && straight_invalid(
                            #[trigger] straights_spec(group_indices(h), orig)[j],
                            orig,
                        ) && straights_spec(group_indices(h), orig)[j].contains(u as usize);
                    assert(group_ok(group_indices(h), orig));
                    assert(false);
                }
            }
        }
        if !board_ok(orig) {
            let h = choose|h: int| 0 <= h < 18 && !(#[trigger] group_ok(group_indices(h), orig));
            let row = group_indices(h);
            lemma_group_indices_ok(h);
            if exists|v: i32| 1 <= v <= 9 && (#[trigger] occ(row, orig, v)).len() >= 2 {
                let v = choose|v: i32| 1 <= v <= 9 && (#[trigger] occ(row, orig, v)).len() >= 2;
                let e = occ(row, orig, v)[0];
                row.lemma_filter_contains_rev(|x: usize| orig[x as int].value == v, e);
                let q = choose|q: int| 0 <= q < row.len() && row[q] == e;
                assert(occ(row, orig, v).contains(e));
                assert(dup_at(orig, e as int));
                assert(!cells@[e as int].is_valid_in_row);
                assert(!all_ok);
            } else {
                let j = choose|j: int|
                    0 <= j < straights_spec(row, orig).len() && straight_invalid(
                        #[trigger] straights_spec(row, orig)[j],
                        orig,
                    );
                lemma_straight_elems(row, orig, j);
                let s = straights_spec(row, orig)[j];
                let e = s[0];
                let q = choose|q: int| 0 <= q < row.len() && row[q] == e;
                assert(s.contains(e));
                assert(straight_bad_at(orig, e as int));
                assert(!cells@[e as int].is_valid_in_straight);
                assert(!all_ok);
            }
        }
    }
    all_ok
}

} // verus!
