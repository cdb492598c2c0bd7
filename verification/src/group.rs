use vstd::prelude::*;
use crate::cell::Cell;

verus! {

/// One constraint group: a row or a column of the board. `row_cells` holds
/// its nine cell indices in group order; `straights` is the derived partition
/// of its white indices into maximal runs of consecutive white cells,
/// separated by black cells.
pub struct Row {
    pub row_cells: Vec<usize>,
    pub straights: Vec<Vec<usize>>,
}

/// Whether the cell at board index `i` is white.
pub open spec fn white_at(cells: Seq<Cell>, i: usize) -> bool {
    cells[i as int].is_white
}

/// The straights of a group: the white indices of `row`, in order, split into
/// maximal runs at the black indices.
pub open spec fn straights_spec(row: Seq<usize>, cells: Seq<Cell>) -> Seq<Seq<usize>>
    decreases row.len(),
{
    if row.len() == 0 {
        Seq::empty()
    } else {
        let pre = straights_spec(row.drop_last(), cells);
        let last = row.last();
        if !white_at(cells, last) {
            pre
        } else if row.len() >= 2 && white_at(cells, row[row.len() - 2]) {
            pre.update(pre.len() - 1, pre.last().push(last))
        } else {
            pre.push(seq![last])
        }
    }
}

/// The views of a vector of index vectors.
pub open spec fn straight_views(ss: Seq<Vec<usize>>) -> Seq<Seq<usize>> {
    ss.map_values(|v: Vec<usize>| v@)
}

/// Filtering a pushed sequence filters the prefix and then keeps or drops the
/// new last element.
pub proof fn lemma_filter_push<A>(s: Seq<A>, x: A, pred: spec_fn(A) -> bool)
    ensures
        (s.push(x)).filter(pred) == if pred(x) {
            s.filter(pred).push(x)
        } else {
            s.filter(pred)
        },
{
    reveal(Seq::filter);
    assert((s.push(x)).drop_last() =~= s);
    assert((s.push(x)).last() == x);
}

/// Two filters in a row keep exactly the elements both predicates accept.
pub proof fn lemma_filter_filter<A>(s: Seq<A>, p: spec_fn(A) -> bool, q: spec_fn(A) -> bool)
    ensures
        s.filter(p).filter(q) == s.filter(|x: A| p(x) && q(x)),
    decreases s.len(),
{
    reveal(Seq::filter);
    if s.len() > 0 {
        let dl = s.drop_last();
        lemma_filter_filter(dl, p, q);
        if p(s.last()) {
            lemma_filter_push(dl.filter(p), s.last(), q);
        }
    }
}

/// A stricter predicate never keeps more elements than a weaker one.
pub proof fn lemma_filter_subpred<A>(s: Seq<A>, p: spec_fn(A) -> bool, q: spec_fn(A) -> bool)
    requires
        forall|t: int| 0 <= t < s.len() && p(#[trigger] s[t]) ==> q(s[t]),
    ensures
        s.filter(p).len() <= s.filter(q).len(),
    decreases s.len(),
{
    reveal(Seq::filter);
    if s.len() > 0 {
        let dl = s.drop_last();
        assert(forall|t: int| 0 <= t < dl.len() ==> dl[t] == s[t]);
        lemma_filter_subpred(dl, p, q);
    }
}

/// Predicates that agree on every element of a sequence filter it alike.
pub proof fn lemma_filter_congruent<A>(s: Seq<A>, p: spec_fn(A) -> bool, q: spec_fn(A) -> bool)
    requires
        forall|t: int| 0 <= t < s.len() ==> p(#[trigger] s[t]) == q(s[t]),
    ensures
        s.filter(p) == s.filter(q),
    decreases s.len(),
{
    reveal(Seq::filter);
    if s.len() > 0 {
        let dl = s.drop_last();
        assert(forall|t: int| 0 <= t < dl.len() ==> dl[t] == s[t]);
        lemma_filter_congruent(dl, p, q);
        assert(p(s.last()) == q(s.last()));
    }
}

/// The concatenation of a sequence of index sequences, in order.
pub open spec fn concat_all(ss: Seq<Seq<usize>>) -> Seq<usize>
    decreases ss.len(),
{
    if ss.len() == 0 {
        Seq::empty()
    } else {
        concat_all(ss.drop_last()) + ss.last()
    }
}

/// The white indices of a group, in group order.
pub open spec fn whites_of(row: Seq<usize>, cells: Seq<Cell>) -> Seq<usize> {
    row.filter(|i: usize| white_at(cells, i))
}

/// The straights of a group lay out exactly its white indices, in order, and
/// every straight is non-empty.
pub proof fn lemma_straights_structure(row: Seq<usize>, cells: Seq<Cell>)
    ensures
        concat_all(straights_spec(row, cells)) == whites_of(row, cells),
        forall|j: int|
            0 <= j < straights_spec(row, cells).len() ==> #[trigger] straights_spec(
                row,
                cells,
            )[j].len() > 0,
    decreases row.len(),
{
    reveal(Seq::filter);
    let ss = straights_spec(row, cells);
    if row.len() == 0 {
        assert(concat_all(ss) =~= whites_of(row, cells));
    } else {
        let dl = row.drop_last();
        let last = row.last();
        let pre = straights_spec(dl, cells);
        lemma_straights_structure(dl, cells);
        assert(dl.push(last) =~= row);
        lemma_filter_push(dl, last, |i: usize| white_at(cells, i));
        if !white_at(cells, last) {
            assert(concat_all(ss) == whites_of(row, cells));
        } else if row.len() >= 2 && white_at(cells, row[row.len() - 2]) {
            // the previous index is white, so it is in whites_of(dl), which is
            // therefore non-empty, and so is pre
            assert(dl[dl.len() - 1] == row[row.len() - 2]);
            dl.lemma_filter_contains(|i: usize| white_at(cells, i), dl.len() - 1);
            assert(whites_of(dl, cells).len() > 0);
            assert(pre.len() > 0);
            assert(ss == pre.update(pre.len() - 1, pre.last().push(last)));
            assert(ss.len() == pre.len());
            assert(ss.drop_last() =~= pre.drop_last());
            assert(ss.last() == pre.last().push(last));
            assert(concat_all(pre) == concat_all(pre.drop_last()) + pre.last());
            assert(concat_all(ss) == concat_all(pre.drop_last()) + pre.last().push(last));
            assert(concat_all(pre.drop_last()) + pre.last().push(last) =~= (concat_all(
                pre.drop_last(),
            ) + pre.last()).push(last));
            assert(concat_all(ss) == whites_of(dl, cells).push(last));
            assert(concat_all(ss) == whites_of(row, cells));
        } else {
            assert(ss == pre.push(seq![last]));
            assert(ss.drop_last() =~= pre);
            assert(concat_all(ss) == concat_all(pre) + seq![last]);
            assert(concat_all(pre) + seq![last] =~= concat_all(pre).push(last));
            assert(concat_all(ss) == whites_of(row, cells));
        }
    }
}

/// Every element of every straight occurs in the concatenation.
pub proof fn lemma_concat_contains(ss: Seq<Seq<usize>>, j: int, t: int)
    requires
        0 <= j < ss.len(),
        0 <= t < ss[j].len(),
    ensures
        concat_all(ss).contains(ss[j][t]),
    decreases ss.len(),
{
    if j == ss.len() - 1 {
        let n = concat_all(ss.drop_last()).len();
        assert(concat_all(ss)[n + t] == ss[j][t]);
    } else {
        lemma_concat_contains(ss.drop_last(), j, t);
        assert(ss.drop_last()[j] == ss[j]);
        let x = ss[j][t];
        let p = choose|p: int|
            0 <= p < concat_all(ss.drop_last()).len() && concat_all(ss.drop_last())[p] == x;
        assert(concat_all(ss)[p] == x);
    }
}

/// Anything in the concatenation lies in one of the straights.
pub proof fn lemma_concat_covers(ss: Seq<Seq<usize>>, x: usize)
    requires
        concat_all(ss).contains(x),
    ensures
        exists|j: int| 0 <= j < ss.len() && #[trigger] ss[j].contains(x),
    decreases ss.len(),
{
    if ss.len() > 0 {
        let pre = concat_all(ss.drop_last());
        if ss.last().contains(x) {
            assert(ss[ss.len() - 1].contains(x));
        } else {
            let p = choose|p: int| 0 <= p < concat_all(ss).len() && concat_all(ss)[p] == x;
            assert(p < pre.len());
            assert(pre[p] == x);
            lemma_concat_covers(ss.drop_last(), x);
            let j = choose|j: int| 0 <= j < ss.drop_last().len() && #[trigger] ss.drop_last()[j].contains(x);
            assert(ss[j].contains(x));
        }
    }
}

/// Filtering preserves freedom from duplicates.
pub proof fn lemma_filter_no_dup<A>(s: Seq<A>, pred: spec_fn(A) -> bool)
    requires
        s.no_duplicates(),
    ensures
        s.filter(pred).no_duplicates(),
    decreases s.len(),
{
    reveal(Seq::filter);
    if s.len() > 0 {
        let dl = s.drop_last();
        assert(dl.no_duplicates());
        lemma_filter_no_dup(dl, pred);
        if pred(s.last()) {
            assert forall|x: A| dl.filter(pred).contains(x) implies dl.contains(x) by {
                dl.lemma_filter_contains_rev(pred, x);
            }
            assert(!dl.contains(s.last()));
            assert(!dl.filter(pred).contains(s.last()));
        }
    }
}

/// When the concatenation has no duplicates, no index lies in two different
/// straights.
pub proof fn lemma_straights_disjoint(ss: Seq<Seq<usize>>, x: usize, j1: int, j2: int)
    requires
        concat_all(ss).no_duplicates(),
        0 <= j1 < ss.len(),
        0 <= j2 < ss.len(),
        j1 < j2,
        ss[j1].contains(x),
    ensures
        !ss[j2].contains(x),
    decreases ss.len(),
{
    let pre = concat_all(ss.drop_last());
    if j2 == ss.len() - 1 {
        let t1 = choose|t: int| 0 <= t < ss[j1].len() && ss[j1][t] == x;
        assert(ss.drop_last()[j1] == ss[j1]);
        lemma_concat_contains(ss.drop_last(), j1, t1);
        let p = choose|p: int| 0 <= p < pre.len() && pre[p] == x;
        if ss[j2].contains(x) {
            let t2 = choose|t: int| 0 <= t < ss[j2].len() && ss[j2][t] == x;
            assert(concat_all(ss)[p] == x);
            assert(concat_all(ss)[pre.len() + t2] == x);
            assert(false);
        }
    } else {
        assert forall|a: int, b: int| 0 <= a < b < pre.len() implies pre[a] != pre[b] by {
            assert(concat_all(ss)[a] == pre[a]);
            assert(concat_all(ss)[b] == pre[b]);
        }
        assert(pre.no_duplicates());
        assert(ss.drop_last()[j1] == ss[j1]);
        assert(ss.drop_last()[j2] == ss[j2]);
        lemma_straights_disjoint(ss.drop_last(), x, j1, j2);
    }
}

/// The group holds digit `v` somewhere (black cells count too).
pub open spec fn value_present(row: Seq<usize>, cells: Seq<Cell>, v: int) -> bool {
    exists|t: int| 0 <= t < row.len() && cells[#[trigger] row[t] as int].value == v
}

/// The nine digits, ascending.
pub open spec fn digits() -> Seq<i32> {
    Seq::new(9, |k: int| (k + 1) as i32)
}

/// The digits a group still misses, ascending.
pub open spec fn missing_spec(row: Seq<usize>, cells: Seq<Cell>) -> Seq<i32> {
    digits().filter(|v: i32| !value_present(row, cells, v as int))
}

/// The digits a group still misses that also lie in `cand`, ascending.
pub open spec fn restricted_missing_spec(row: Seq<usize>, cells: Seq<Cell>, cand: Seq<i32>) -> Seq<
    i32,
> {
    digits().filter(|v: i32| !value_present(row, cells, v as int) && cand.contains(v))
}

/// The least digit held by a cell of `s`, or 10 when none is filled.
pub open spec fn min_filled(s: Seq<usize>, cells: Seq<Cell>) -> int
    decreases s.len(),
{
    if s.len() == 0 {
        10
    } else {
        let rest = min_filled(s.drop_last(), cells);
        let v = cells[s.last() as int].value as int;
        if v > 0 && v < rest {
            v
        } else {
            rest
        }
    }
}

/// The greatest digit held by a cell of `s`, or 0 when none is filled.
pub open spec fn max_filled(s: Seq<usize>, cells: Seq<Cell>) -> int
    decreases s.len(),
{
    if s.len() == 0 {
        0
    } else {
        let rest = max_filled(s.drop_last(), cells);
        let v = cells[s.last() as int].value as int;
        if v > 0 && v > rest {
            v
        } else {
            rest
        }
    }
}

/// Some cell of `s` holds a digit.
pub open spec fn has_filled(s: Seq<usize>, cells: Seq<Cell>) -> bool {
    exists|t: int| 0 <= t < s.len() && cells[#[trigger] s[t] as int].value > 0
}

/// Digit `v` could still be placed in the straight `s`: it either falls
/// strictly inside the present span, or extends it without the final span
/// reaching the straight's cell count. An empty straight restricts nothing.
pub open spec fn fits_straight(v: int, s: Seq<usize>, cells: Seq<Cell>) -> bool {
    let mn = min_filled(s, cells);
    let mx = max_filled(s, cells);
    !has_filled(s, cells) || {
        ||| (mn < v && v < mx)
        ||| (v < mn && mx - v < s.len())
        ||| (v > mx && v - mn < s.len())
    }
}

/// The straight already breaks the range rule: the span of its filled digits
/// reaches its cell count.
pub open spec fn straight_invalid(s: Seq<usize>, cells: Seq<Cell>) -> bool {
    has_filled(s, cells) && max_filled(s, cells) - min_filled(s, cells) >= s.len()
}

/// What `min_filled` and `max_filled` return: the extreme digits of the
/// filled cells of `s`, with their neutral values when nothing is filled.
pub proof fn lemma_min_max_props(s: Seq<usize>, cells: Seq<Cell>)
    requires
        forall|t: int| 0 <= t < s.len() ==> #[trigger] s[t] < cells.len() && cells[s[t] as int].wf(),
    ensures
        !has_filled(s, cells) ==> min_filled(s, cells) == 10 && max_filled(s, cells) == 0,
        has_filled(s, cells) ==> {
            &&& 1 <= min_filled(s, cells) <= max_filled(s, cells) <= 9
            &&& exists|t: int|
                0 <= t < s.len() && cells[#[trigger] s[t] as int].value == min_filled(s, cells)
            &&& exists|t: int|
                0 <= t < s.len() && cells[#[trigger] s[t] as int].value == max_filled(s, cells)
        },
        forall|t: int|
            0 <= t < s.len() && cells[#[trigger] s[t] as int].value > 0 ==> min_filled(s, cells)
                <= cells[s[t] as int].value <= max_filled(s, cells),
    decreases s.len(),
{
    if s.len() > 0 {
        let dl = s.drop_last();
        lemma_min_max_props(dl, cells);
        assert forall|t: int| 0 <= t < dl.len() implies #[trigger] dl[t] < cells.len()
            && cells[dl[t] as int].wf() by {
            assert(dl[t] == s[t]);
        }
        let v = cells[s.last() as int].value as int;
        if has_filled(s, cells) {
            if v > 0 {
                assert(cells[s[s.len() - 1] as int].value > 0);
            }
            if has_filled(dl, cells) {
                let t0 = choose|t: int|
                    0 <= t < dl.len() && cells[#[trigger] dl[t] as int].value > 0;
                assert(cells[s[t0] as int].value > 0);
            }
        }
        assert forall|t: int|
            0 <= t < s.len() && cells[#[trigger] s[t] as int].value > 0 implies min_filled(
            s,
            cells,
        ) <= cells[s[t] as int].value <= max_filled(s, cells) by {
            if t < s.len() - 1 {
                assert(dl[t] == s[t]);
                assert(cells[dl[t] as int].value > 0);
            }
        }
        if has_filled(s, cells) && !has_filled(dl, cells) {
            let t0 = choose|t: int| 0 <= t < s.len() && cells[#[trigger] s[t] as int].value > 0;
            if t0 < s.len() - 1 {
                assert(cells[dl[t0] as int].value > 0);
                assert(false);
            }
            assert(v > 0);
        }
    }
}

impl Row {
    /// All indices of the group are in bounds for an 81-cell board.
    pub open spec fn indices_ok(self) -> bool {
        forall|k: int| 0 <= k < self.row_cells@.len() ==> #[trigger] self.row_cells@[k] < 81
    }

    /// The group matches a board's colours: its straights are exactly the
    /// straight partition derived from its indices and the given cells.
    pub open spec fn matches(self, cells: Seq<Cell>) -> bool {
        straight_views(self.straights@) == straights_spec(self.row_cells@, cells)
    }

    /// Build a group from its ordered cell indices, recognizing its straights
    /// from the colours on the given board.
    pub fn new(row_cells: Vec<usize>, all_cells: &Vec<Cell>) -> (r: Row)
        requires
            forall|k: int|
                0 <= k < row_cells@.len() ==> #[trigger] row_cells@[k] < all_cells@.len(),
        ensures
            r.row_cells@ == row_cells@,
            r.matches(all_cells@),
    {
        let ghost cells = all_cells@;
        let mut straights: Vec<Vec<usize>> = Vec::new();
        let mut cur: Vec<usize> = Vec::new();
        let n = row_cells.len();
        let mut k: usize = 0;
        while k < n
            invariant
                k <= n,
                n == row_cells@.len(),
                cells == all_cells@,
                forall|t: int|
                    0 <= t < row_cells@.len() ==> #[trigger] row_cells@[t] < all_cells@.len(),
                cur@.len() == 0 ==> {
                    &&& straight_views(straights@) == straights_spec(
                        row_cells@.take(k as int),
                        cells,
                    )
                    &&& (k > 0 ==> !white_at(cells, row_cells@[k - 1]))
                },
                cur@.len() > 0 ==> {
                    &&& k > 0
                    &&& white_at(cells, row_cells@[k - 1])
                    &&& straight_views(straights@).push(cur@) == straights_spec(
                        row_cells@.take(k as int),
                        cells,
                    )
                },
            decreases n - k,
        {
            let idx = row_cells[k];
            proof {
                assert(row_cells@.take(k + 1).drop_last() =~= row_cells@.take(k as int));
                assert(row_cells@.take(k + 1).last() == row_cells@[k as int]);
            }
            if all_cells[idx].is_white {
                cur.push(idx);
                proof {
                    let pre = straights_spec(row_cells@.take(k as int), cells);
                    let post = straights_spec(row_cells@.take(k + 1), cells);
                    if cur@.len() > 1 {
                        assert(post == pre.update(pre.len() - 1, pre.last().push(idx)));
                        assert(straight_views(straights@).push(cur@) =~= post);
                    } else {
                        assert(post == pre.push(seq![idx]));
                        assert(cur@ =~= seq![idx]);
                        assert(straight_views(straights@).push(cur@) =~= post);
                    }
                }
            } else {
                if cur.len() > 0 {
                    let ghost old_straights = straights@;
                    let ghost run = cur@;
                    straights.push(cur);
                    cur = Vec::new();
                    proof {
                        assert(straight_views(straights@) =~= straight_views(old_straights).push(
                            run,
                        ));
                    }
                }
                proof {
                    assert(straights_spec(row_cells@.take(k + 1), cells) == straights_spec(
                        row_cells@.take(k as int),
                        cells,
                    ));
                }
            }
            k += 1;
        }
        proof {
            assert(row_cells@.take(n as int) =~= row_cells@);
        }
        if cur.len() > 0 {
            let ghost old_straights = straights@;
            let ghost run = cur@;
            straights.push(cur);
            proof {
                assert(straight_views(straights@) =~= straight_views(old_straights).push(run));
            }
        }
        Row { row_cells, straights }
    }

    /// Check the group: collect, per digit held twice or more, the indices
    /// holding it, and collect every straight whose filled digits span at
    /// least its cell count. Returns `None` exactly when the group breaks
    /// neither rule.
    pub fn validate(&self, all_cells: &Vec<Cell>) -> (r: Option<
        (Vec<Vec<usize>>, Vec<Vec<usize>>),
    >)
        requires
            crate::cell::board_wf(all_cells@),
            self.indices_ok(),
            self.row_cells@.len() == 9,
            self.matches(all_cells@),
        ensures
            (r is None) <==> ((forall|v: i32|
                1 <= v <= 9 ==> (#[trigger] occ(self.row_cells@, all_cells@, v)).len() <= 1)
                && (forall|j: int|
                0 <= j < self.straights@.len() ==> !straight_invalid(
                    (#[trigger] self.straights@[j])@,
                    all_cells@,
                ))),
            r matches Some(p) ==> straight_views(p.0@) == dup_sets(self.row_cells@, all_cells@)
                && straight_views(p.1@) == bad_straights(
                straight_views(self.straights@),
                all_cells@,
            ),
    {
        let ghost cells = all_cells@;
        let ghost row = self.row_cells@;
        let ghost views = straight_views(self.straights@);
        let ghost occs = Seq::new(9, |k: int| occ(row, cells, (k + 1) as i32));

        // per digit, the indices holding it; keep those held twice or more
        let mut mo: Vec<Vec<usize>> = Vec::new();
        let mut v: i32 = 1;
        while v <= 9
            invariant
                1 <= v <= 10,
                cells == all_cells@,
                row == self.row_cells@,
                occs == Seq::new(9, |k: int| occ(row, cells, (k + 1) as i32)),
                forall|k: int| 0 <= k < row.len() ==> #[trigger] row[k] < cells.len(),
                straight_views(mo@) == occs.take(v - 1).filter(|s: Seq<usize>| s.len() >= 2),
            decreases 10 - v,
        {
            let rn = self.row_cells.len();
            let mut occv: Vec<usize> = Vec::new();
            let mut t: usize = 0;
            while t < rn
                invariant
                    t <= rn,
                    rn == row.len(),
                    cells == all_cells@,
                    row == self.row_cells@,
                    forall|k: int| 0 <= k < row.len() ==> #[trigger] row[k] < cells.len(),
                    occv@ == row.take(t as int).filter(
                        |i: usize| cells[i as int].value == v,
                    ),
                decreases rn - t,
            {
                let idx = self.row_cells[t];
                proof {
                    assert(row.take(t + 1) =~= row.take(t as int).push(row[t as int]));
                    lemma_filter_push(
                        row.take(t as int),
                        row[t as int],
                        |i: usize| cells[i as int].value == v,
                    );
                }
                if all_cells[idx].value == v {
                    occv.push(idx);
                }
                t += 1;
            }
            proof {
                assert(row.take(rn as int) =~= row);
                assert(occv@ == occ(row, cells, v));
                assert(occs.take(v as int) =~= occs.take(v - 1).push(occs[v - 1]));
                assert(occs[v - 1] == occ(row, cells, v));
                lemma_filter_push(occs.take(v - 1), occs[v - 1], |s: Seq<usize>| s.len() >= 2);
            }
            if occv.len() > 1 {
                let ghost old_mo = mo@;
                mo.push(occv);
                proof {
                    assert(straight_views(mo@) =~= straight_views(old_mo).push(occ(row, cells, v)));
                }
            }
            v += 1;
        }
        proof {
            assert(occs.take(9) =~= occs);
            assert(straight_views(mo@) == dup_sets(row, cells));
        }

        // straights whose filled digits span at least their cell count
        let sn = self.straights.len();
        let mut isv: Vec<Vec<usize>> = Vec::new();
        let mut j: usize = 0;
        while j < sn
            invariant
                j <= sn,
                sn == self.straights@.len(),
                cells == all_cells@,
                row == self.row_cells@,
                views == straight_views(self.straights@),
                crate::cell::board_wf(cells),
                self.indices_ok(),
                self.row_cells@.len() == 9,
                self.matches(cells),
                straight_views(isv@) == views.take(j as int).filter(
                    |s: Seq<usize>| straight_invalid(s, cells),
                ),
            decreases sn - j,
        {
            let ghost s = self.straights@[j as int]@;
            proof {
                lemma_straight_elems_ok(self, cells, j as int);
                assert(views[j as int] == s);
                assert(0 < s.len() <= 9);
            }
            let straight = &self.straights[j];
            let mm = straight_min_max(straight, all_cells);
            proof {
                lemma_min_max_props(s, cells);
                assert(views.take(j + 1) =~= views.take(j as int).push(views[j as int]));
                lemma_filter_push(
                    views.take(j as int),
                    views[j as int],
                    |u: Seq<usize>| straight_invalid(u, cells),
                );
            }
            let slen = straight.len();
            if mm.1 > 0 && mm.1 - mm.0 >= slen as i32 {
                let ghost old_isv = isv@;
                let cp = copy_vec_usize(straight);
                isv.push(cp);
                proof {
                    assert(straight_views(isv@) =~= straight_views(old_isv).push(s));
                }
            } else {
                proof {
                    assert(!straight_invalid(s, cells));
                }
            }
            j += 1;
        }
        proof {
            assert(views.take(sn as int) =~= views);
            assert(straight_views(isv@) == bad_straights(views, cells));
        }

        let any_dup = mo.len() > 0;
        let any_bad = isv.len() > 0;
        proof {
            // a duplicate digit exists exactly when the filtered list is
            // non-empty, and likewise for the bad straights
            if dup_sets(row, cells).len() > 0 {
                occs.lemma_filter_pred(|s: Seq<usize>| s.len() >= 2, 0);
                occs.lemma_filter_contains_rev(
                    |s: Seq<usize>| s.len() >= 2,
                    dup_sets(row, cells)[0],
                );
                let k = choose|k: int| 0 <= k < occs.len() && occs[k] == dup_sets(row, cells)[0];
                assert(occ(row, cells, (k + 1) as i32).len() >= 2);
                assert(1 <= (k + 1) as i32 <= 9);
            }
            assert forall|d: i32| 1 <= d <= 9 && (#[trigger] occ(row, cells, d)).len() >= 2 implies
                dup_sets(row, cells).len() > 0 by {
                assert(occs[d - 1] == occ(row, cells, d));
                occs.lemma_filter_contains(|s: Seq<usize>| s.len() >= 2, d - 1);
            }
            if bad_straights(views, cells).len() > 0 {
                views.lemma_filter_pred(|s: Seq<usize>| straight_invalid(s, cells), 0);
                views.lemma_filter_contains_rev(
                    |s: Seq<usize>| straight_invalid(s, cells),
                    bad_straights(views, cells)[0],
                );
                let k = choose|k: int|
                    0 <= k < views.len() && views[k] == bad_straights(views, cells)[0];
                assert(straight_invalid(self.straights@[k]@, cells));
            }
            assert forall|k: int|
                0 <= k < self.straights@.len() && straight_invalid(
                    (#[trigger] self.straights@[k])@,
                    cells,
                ) implies bad_straights(views, cells).len() > 0 by {
                assert(views[k] == self.straights@[k]@);
                views.lemma_filter_contains(|s: Seq<usize>| straight_invalid(s, cells), k);
            }
        }
        if any_dup || any_bad {
            Some((mo, isv))
        } else {
            None
        }
    }

    /// The digits not yet present anywhere in the group, ascending; when a
    /// candidate list is given, only those digits that also occur in it.
    pub fn missing_values_cells(
        &self,
        candidate_values: Option<&Vec<i32>>,
        all_cells: &Vec<Cell>,
    ) -> (r: Vec<i32>)
        requires
            forall|k: int|
                0 <= k < self.row_cells@.len() ==> #[trigger] self.row_cells@[k]
                    < all_cells@.len(),
        ensures
            match candidate_values {
                Option::None => r@ == missing_spec(self.row_cells@, all_cells@),
                Option::Some(c) => r@ == restricted_missing_spec(self.row_cells@, all_cells@, c@),
            },
    {
        let ghost cells = all_cells@;
        let ghost row = self.row_cells@;
        let mut r: Vec<i32> = Vec::new();
        let mut v: i32 = 1;
        while v <= 9
            invariant
                1 <= v <= 10,
                cells == all_cells@,
                row == self.row_cells@,
                forall|k: int| 0 <= k < row.len() ==> #[trigger] row[k] < cells.len(),
                match candidate_values {
                    Option::None => r@ == digits().take(v - 1).filter(
                        |d: i32| !value_present(row, cells, d as int),
                    ),
                    Option::Some(c) => r@ == digits().take(v - 1).filter(
                        |d: i32| !value_present(row, cells, d as int) && c@.contains(d),
                    ),
                },
            decreases 10 - v,
        {
            let present = group_has_value(&self.row_cells, all_cells, v);
            let keep = !present && (match candidate_values {
                Option::None => true,
                Option::Some(c) => vec_contains_i32(c, v),
            });
            if keep {
                r.push(v);
            }
            proof {
                assert(digits().take(v - 1).push(v) =~= digits().take(v as int));
                match candidate_values {
                    Option::None => {
                        lemma_filter_push(
                            digits().take(v - 1),
                            v,
                            |d: i32| !value_present(row, cells, d as int),
                        );
                    },
                    Option::Some(c) => {
                        lemma_filter_push(
                            digits().take(v - 1),
                            v,
                            |d: i32| !value_present(row, cells, d as int) && c@.contains(d),
                        );
                    },
                }
            }
            v += 1;
        }
        proof {
            assert(digits().take(9) =~= digits());
        }
        r
    }

    /// The candidates that survive the straight rule at `cell_index`: locate
    /// the straight holding that cell and keep, in order, the candidate
    /// digits that could still be placed in it.
    pub fn possible_straight_values_cells(
        &self,
        cell_index: usize,
        candidate_values: &Vec<i32>,
        all_cells: &Vec<Cell>,
    ) -> (r: Vec<i32>)
        requires
            crate::cell::board_wf(all_cells@),
            self.indices_ok(),
            self.row_cells@.len() == 9,
            self.row_cells@.no_duplicates(),
            self.matches(all_cells@),
            exists|j: int|
                0 <= j < self.straights@.len() && (#[trigger] self.straights@[j])@.contains(
                    cell_index,
                ),
            forall|t: int|
                0 <= t < candidate_values@.len() ==> 1 <= #[trigger] candidate_values@[t] <= 9,
        ensures
            forall|j: int|
                0 <= j < self.straights@.len() && (#[trigger] self.straights@[j])@.contains(
                    cell_index,
                ) ==> r@ == candidate_values@.filter(
                    |d: i32| fits_straight(d as int, self.straights@[j]@, all_cells@),
                ),
            forall|d: i32| r@.contains(d) ==> candidate_values@.contains(d),
    {
        let ghost cells = all_cells@;
        let ghost views = straight_views(self.straights@);
        proof {
            lemma_straights_structure(self.row_cells@, cells);
            lemma_filter_no_dup(self.row_cells@, |i: usize| white_at(cells, i));
        }
        // find the straight that holds the cell; it exists and is unique
        let n = self.straights.len();
        let mut j: usize = 0;
        let mut found: usize = 0;
        let mut have = false;
        while j < n
            invariant_except_break
                j <= n,
                n == self.straights@.len(),
                !have,
                forall|t: int| 0 <= t < j ==> !(#[trigger] self.straights@[t])@.contains(
                    cell_index,
                ),
                exists|t: int|
                    0 <= t < self.straights@.len() && (#[trigger] self.straights@[t])@.contains(
                        cell_index,
                    ),
            ensures
                have,
                found < self.straights@.len(),
                self.straights@[found as int]@.contains(cell_index),
                forall|t: int| 0 <= t < found ==> !(#[trigger] self.straights@[t])@.contains(
                    cell_index,
                ),
            decreases n - j,
        {
            if vec_contains_usize(&self.straights[j], cell_index) {
                found = j;
                have = true;
                break ;
            }
            j += 1;
            proof {
                if j == n {
                    let t = choose|t: int|
                        0 <= t < self.straights@.len()
                            && (#[trigger] self.straights@[t])@.contains(cell_index);
                    assert(false);
                }
            }
        }
        let ghost s = self.straights@[found as int]@;
        proof {
            // every index of the straight is an index of the group, hence in
            // bounds and well-formed
            assert(views[found as int] == s);
            assert forall|t: int| 0 <= t < s.len() implies #[trigger] s[t] < cells.len()
                && cells[s[t] as int].wf() by {
                lemma_concat_contains(views, found as int, t);
                assert(whites_of(self.row_cells@, cells).contains(s[t]));
                self.row_cells@.lemma_filter_contains_rev(|i: usize| white_at(cells, i), s[t]);
                let p = choose|p: int|
                    0 <= p < self.row_cells@.len() && self.row_cells@[p] == s[t];
                assert(self.row_cells@[p] < 81);
            }
            lemma_min_max_props(s, cells);
        }
        // the straight's filled extremes
        let straight = &self.straights[found];
        let slen = straight.len();
        proof {
            lemma_concat_len(views, found as int);
            self.row_cells@.lemma_filter_len(|i: usize| white_at(cells, i));
            assert(concat_all(views) == whites_of(self.row_cells@, cells));
            assert(views[found as int] == s);
            assert(s.len() <= 9);
            assert(straights_spec(self.row_cells@, cells)[found as int].len() > 0);
            assert(s.len() > 0);
        }
        let mut mn: i32 = 10;
        let mut mx: i32 = 0;
        let mut t: usize = 0;
        while t < slen
            invariant
                t <= slen,
                slen == s.len(),
                s == straight@,
                cells == all_cells@,
                crate::cell::board_wf(cells),
                forall|u: int| 0 <= u < s.len() ==> #[trigger] s[u] < cells.len(),
                mn == min_filled(s.take(t as int), cells),
                mx == max_filled(s.take(t as int), cells),
            decreases slen - t,
        {
            let idx = straight[t];
            let val = all_cells[idx].value;
            proof {
                assert(s.take(t + 1).drop_last() =~= s.take(t as int));
                assert(s.take(t + 1).last() == s[t as int]);
            }
            if val > 0 && val < mn {
                mn = val;
            }
            if val > 0 && val > mx {
                mx = val;
            }
            t += 1;
        }
        proof {
            assert(s.take(slen as int) =~= s);
        }
        // an empty straight restricts nothing
        if mx == 0 {
            proof {
                assert(!has_filled(s, cells));
                lemma_filter_keep_all(
                    candidate_values@,
                    |d: i32| fits_straight(d as int, s, cells),
                );
            }
            let r = copy_vec_i32(candidate_values);
            proof {
                lemma_unique_straight(self, cells, cell_index, found as int);
            }
            return r;
        }
        proof {
            assert(has_filled(s, cells));
        }
        // keep the candidates that still fit the straight's final span
        let li = slen as i32;
        let m = candidate_values.len();
        let mut r: Vec<i32> = Vec::new();
        let mut q: usize = 0;
        while q < m
            invariant
                q <= m,
                m == candidate_values@.len(),
                cells == all_cells@,
                s == self.straights@[found as int]@,
                found < self.straights@.len(),
                has_filled(s, cells),
                mn == min_filled(s, cells),
                mx == max_filled(s, cells),
                1 <= mn <= mx <= 9,
                0 < s.len() <= 9,
                li == s.len(),
                forall|u: int|
                    0 <= u < candidate_values@.len() ==> 1 <= #[trigger] candidate_values@[u] <= 9,
                r@ == candidate_values@.take(q as int).filter(
                    |d: i32| fits_straight(d as int, s, cells),
                ),
            decreases m - q,
        {
            let val = candidate_values[q];
            if (mn < val && val < mx) || (val < mn && mx - val < li) || (mx < val && val - mn
                < li) {
                r.push(val);
            }
            proof {
                assert(candidate_values@.take(q + 1) =~= candidate_values@.take(q as int).push(
                    candidate_values@[q as int],
                ));
                lemma_filter_push(
                    candidate_values@.take(q as int),
                    candidate_values@[q as int],
                    |d: i32| fits_straight(d as int, s, cells),
                );
            }
            q += 1;
        }
        proof {
            assert(candidate_values@.take(m as int) =~= candidate_values@);
            lemma_unique_straight(self, cells, cell_index, found as int);
            assert forall|d: i32| r@.contains(d) implies candidate_values@.contains(d) by {
                candidate_values@.lemma_filter_contains_rev(
                    |d: i32| fits_straight(d as int, s, cells),
                    d,
                );
            }
        }
        r
    }
}

/// The indices of the group's cells that hold digit `v`, in group order.
pub open spec fn occ(row: Seq<usize>, cells: Seq<Cell>, v: i32) -> Seq<usize> {
    row.filter(|i: usize| cells[i as int].value == v)
}

/// The duplicate sets of a group: for each digit held by two or more of its
/// cells, the indices of those cells, in ascending digit order.
pub open spec fn dup_sets(row: Seq<usize>, cells: Seq<Cell>) -> Seq<Seq<usize>> {
    Seq::new(9, |k: int| occ(row, cells, (k + 1) as i32)).filter(|s: Seq<usize>| s.len() >= 2)
}

/// The straights of the group that break the range rule, in group order.
pub open spec fn bad_straights(ss: Seq<Seq<usize>>, cells: Seq<Cell>) -> Seq<Seq<usize>> {
    ss.filter(|s: Seq<usize>| straight_invalid(s, cells))
}

/// Every index of the group's straight `j` is a white cell of an 81-cell
/// board, and the straight is non-empty and no longer than the group.
pub proof fn lemma_straight_elems_ok(g: &Row, cells: Seq<Cell>, j: int)
    requires
        g.indices_ok(),
        g.matches(cells),
        0 <= j < g.straights@.len(),
    ensures
        forall|t: int|
            0 <= t < g.straights@[j]@.len() ==> #[trigger] g.straights@[j]@[t] < 81 && white_at(
                cells,
                g.straights@[j]@[t],
            ),
        g.straights@[j]@.len() <= g.row_cells@.len(),
        g.straights@[j]@.len() > 0,
{
    let views = straight_views(g.straights@);
    let row = g.row_cells@;
    lemma_straights_structure(row, cells);
    assert(views[j] == g.straights@[j]@);
    assert(straights_spec(row, cells)[j].len() > 0);
    lemma_concat_len(views, j);
    row.lemma_filter_len(|i: usize| white_at(cells, i));
    assert forall|t: int| 0 <= t < g.straights@[j]@.len() implies #[trigger] g.straights@[j]@[t]
        < 81 && white_at(cells, g.straights@[j]@[t]) by {
        lemma_concat_contains(views, j, t);
        let x = g.straights@[j]@[t];
        assert(whites_of(row, cells).contains(x));
        row.lemma_filter_contains_rev(|i: usize| white_at(cells, i), x);
        let p = choose|p: int| 0 <= p < row.len() && row[p] == x;
        assert(row[p] < 81);
        let q = choose|q: int|
            0 <= q < whites_of(row, cells).len() && whites_of(row, cells)[q] == x;
        row.lemma_filter_pred(|i: usize| white_at(cells, i), q);
    }
}

/// The least and greatest digit held by the cells of `s`, with the neutral
/// pair (10, 0) when none of them is filled.
pub fn straight_min_max(s: &Vec<usize>, cells: &Vec<Cell>) -> (mm: (i32, i32))
    requires
        forall|t: int|
            0 <= t < s@.len() ==> #[trigger] s@[t] < cells@.len() && cells@[s@[t] as int].wf(),
    ensures
        mm.0 == min_filled(s@, cells@),
        mm.1 == max_filled(s@, cells@),
{
    let n = s.len();
    let mut mn: i32 = 10;
    let mut mx: i32 = 0;
    let mut t: usize = 0;
    while t < n
        invariant
            t <= n,
            n == s@.len(),
            forall|u: int|
                0 <= u < s@.len() ==> #[trigger] s@[u] < cells@.len() && cells@[s@[u] as int].wf(),
            mn == min_filled(s@.take(t as int), cells@),
            mx == max_filled(s@.take(t as int), cells@),
        decreases n - t,
    {
        let idx = s[t];
        let val = cells[idx].value;
        proof {
            assert(s@.take(t + 1).drop_last() =~= s@.take(t as int));
            assert(s@.take(t + 1).last() == s@[t as int]);
        }
        if val > 0 && val < mn {
            mn = val;
        }
        if val > 0 && val > mx {
            mx = val;
        }
        t += 1;
    }
    proof {
        assert(s@.take(n as int) =~= s@);
    }
    (mn, mx)
}

/// An element-by-element copy of an index list.
pub fn copy_vec_usize(vals: &Vec<usize>) -> (r: Vec<usize>)
    ensures
        r@ == vals@,
{
    let n = vals.len();
    let mut r: Vec<usize> = Vec::new();
    let mut k: usize = 0;
    while k < n
        invariant
            k <= n,
            n == vals@.len(),
            r@ == vals@.take(k as int),
        decreases n - k,
    {
        r.push(vals[k]);
        proof {
            assert(vals@.take(k + 1) =~= vals@.take(k as int).push(vals@[k as int]));
        }
        k += 1;
    }
    proof {
        assert(vals@.take(n as int) =~= vals@);
    }
    r
}

/// Each straight is at most as long as the concatenation of all of them.
pub proof fn lemma_concat_len(ss: Seq<Seq<usize>>, j: int)
    requires
        0 <= j < ss.len(),
    ensures
        ss[j].len() <= concat_all(ss).len(),
    decreases ss.len(),
{
    if j == ss.len() - 1 {
    } else {
        lemma_concat_len(ss.drop_last(), j);
        assert(ss.drop_last()[j] == ss[j]);
    }
}

/// A filter that keeps every element returns the sequence unchanged.
pub proof fn lemma_filter_keep_all<A>(s: Seq<A>, pred: spec_fn(A) -> bool)
    requires
        forall|t: int| 0 <= t < s.len() ==> pred(#[trigger] s[t]),
    ensures
        s.filter(pred) == s,
    decreases s.len(),
{
    reveal(Seq::filter);
    if s.len() > 0 {
        let dl = s.drop_last();
        assert(forall|t: int| 0 <= t < dl.len() ==> dl[t] == s[t]);
        lemma_filter_keep_all(dl, pred);
        assert(s.filter(pred) =~= s);
    }
}

/// In a group without duplicate indices, the straight found at position `j0`
/// is the only one that holds `cell_index`.
proof fn lemma_unique_straight(g: &Row, cells: Seq<Cell>, cell_index: usize, j0: int)
    requires
        g.row_cells@.no_duplicates(),
        g.matches(cells),
        0 <= j0 < g.straights@.len(),
        g.straights@[j0]@.contains(cell_index),
    ensures
        forall|j: int|
            0 <= j < g.straights@.len() && (#[trigger] g.straights@[j])@.contains(cell_index) ==> j
                == j0,
{
    let views = straight_views(g.straights@);
    lemma_straights_structure(g.row_cells@, cells);
    lemma_filter_no_dup(g.row_cells@, |i: usize| white_at(cells, i));
    assert(concat_all(views).no_duplicates());
    assert forall|j: int|
        0 <= j < g.straights@.len() && (#[trigger] g.straights@[j])@.contains(cell_index) implies j
        == j0 by {
        assert(views[j] == g.straights@[j]@);
        assert(views[j0] == g.straights@[j0]@);
        if j < j0 {
            lemma_straights_disjoint(views, cell_index, j, j0);
        } else if j0 < j {
            lemma_straights_disjoint(views, cell_index, j0, j);
        }
    }
}

/// Whether digit `v` occurs anywhere in the group.
fn group_has_value(row_cells: &Vec<usize>, cells: &Vec<Cell>, v: i32) -> (b: bool)
    requires
        forall|k: int| 0 <= k < row_cells@.len() ==> #[trigger] row_cells@[k] < cells@.len(),
    ensures
        b == value_present(row_cells@, cells@, v as int),
{
    let n = row_cells.len();
    let mut k: usize = 0;
    while k < n
        invariant
            k <= n,
            n == row_cells@.len(),
            forall|t: int| 0 <= t < row_cells@.len() ==> #[trigger] row_cells@[t] < cells@.len(),
            forall|t: int| 0 <= t < k ==> cells@[#[trigger] row_cells@[t] as int].value != v,
        decreases n - k,
    {
        if cells[row_cells[k]].value == v {
            return true;
        }
        k += 1;
    }
    false
}

/// Whether `vals` holds `v`.
fn vec_contains_i32(vals: &Vec<i32>, v: i32) -> (b: bool)
    ensures
        b == vals@.contains(v),
{
    let n = vals.len();
    let mut k: usize = 0;
    while k < n
        invariant
            k <= n,
            n == vals@.len(),
            forall|t: int| 0 <= t < k ==> vals@[t] != v,
        decreases n - k,
    {
        if vals[k] == v {
            return true;
        }
        k += 1;
    }
    false
}

/// Whether `vals` holds `v`.
fn vec_contains_usize(vals: &Vec<usize>, v: usize) -> (b: bool)
    ensures
        b == vals@.contains(v),
{
    let n = vals.len();
    let mut k: usize = 0;
    while k < n
        invariant
            k <= n,
            n == vals@.len(),
            forall|t: int| 0 <= t < k ==> vals@[t] != v,
        decreases n - k,
    {
        if vals[k] == v {
            return true;
        }
        k += 1;
    }
    false
}

/// An element-by-element copy of a digit list.
pub fn copy_vec_i32(vals: &Vec<i32>) -> (r: Vec<i32>)
    ensures
        r@ == vals@,
{
    let n = vals.len();
    let mut r: Vec<i32> = Vec::new();
    let mut k: usize = 0;
    while k < n
        invariant
            k <= n,
            n == vals@.len(),
            r@ == vals@.take(k as int),
        decreases n - k,
    {
        r.push(vals[k]);
        proof {
            assert(vals@.take(k + 1) =~= vals@.take(k as int).push(vals@[k as int]));
        }
        k += 1;
    }
    proof {
        assert(vals@.take(n as int) =~= vals@);
    }
    r
}

} // verus!
