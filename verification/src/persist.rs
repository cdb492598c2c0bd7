use vstd::prelude::*;
use crate::cell::Cell;
use crate::cell::board_wf;

verus! {

/// Why a persisted game could not be loaded.
pub enum LoadError {
    /// The text is not valid JSON for the persisted shape.
    Parse,
    /// The array does not hold exactly 81 cells.
    CellCount,
    /// A cell value lies outside the empty marker and the digits.
    CellValue,
    /// A pencil-mark array does not hold exactly 9 flags.
    PencilMarks,
}

/// The mathematical view of persisted data: per cell its value, colour,
/// fixedness and pencil marks.
pub open spec fn save_view(d: Seq<(i32, bool, bool, Vec<bool>)>) -> Seq<
    (i32, bool, bool, Seq<bool>),
> {
    d.map_values(|x: (i32, bool, bool, Vec<bool>)| (x.0, x.1, x.2, x.3@))
}

/// What a board looks like in the persisted shape.
pub open spec fn board_save_view(cells: Seq<Cell>) -> Seq<(i32, bool, bool, Seq<bool>)> {
    cells.map_values(|c: Cell| (c.value, c.is_white, c.is_fixed, c.small_values@))
}

/// Persisted data that a load accepts: exactly 81 entries, every value the
/// empty marker or a digit, every pencil-mark array of length 9.
pub open spec fn save_data_ok(d: Seq<(i32, bool, bool, Seq<bool>)>) -> bool {
    &&& d.len() == 81
    &&& forall|i: int|
        0 <= i < 81 ==> (((#[trigger] d[i]).0 == -1 || 1 <= d[i].0 <= 9) && d[i].3.len() == 9)
}

/// The board `new` is `old` overwritten with the persisted data `d`: value,
/// colour, fixedness and pencil marks come from the data, while the editing
/// state and the validity flags of each cell are kept.
pub open spec fn loaded_from(
    new: Seq<Cell>,
    old: Seq<Cell>,
    d: Seq<(i32, bool, bool, Seq<bool>)>,
) -> bool {
    &&& new.len() == 81
    &&& forall|i: int|
        0 <= i < 81 ==> {
            &&& (#[trigger] new[i]).value == d[i].0
            &&& new[i].is_white == d[i].1
            &&& new[i].is_fixed == d[i].2
            &&& new[i].small_values@ == d[i].3
            &&& new[i].is_editing == old[i].is_editing
            &&& new[i].is_valid_in_row == old[i].is_valid_in_row
            &&& new[i].is_valid_in_straight == old[i].is_valid_in_straight
        }
}

/// The JSON text that serialization produces for persisted data: a pure
/// function of the data alone.
pub uninterp spec fn json_of(d: Seq<(i32, bool, bool, Seq<bool>)>) -> Seq<char>;

/// Relies on serde_json::to_string: serializing an array of tuples of
/// integers, booleans and boolean vectors is deterministic, depends on the
/// values alone, and cannot fail for this shape.
#[verifier::external_body]
fn to_json(data: &Vec<(i32, bool, bool, Vec<bool>)>) -> (r: String)
    ensures
        r@ == json_of(save_view(data@)),
{
    serde_json::to_string(data).unwrap()
}

/// Relies on serde_json::from_str: parsing the text that
/// serde_json::to_string produced for a value of this shape yields that
/// value back (the encoding is injective and accepted by the parser).
#[verifier::external_body]
fn from_json(s: &str) -> (r: Option<Vec<(i32, bool, bool, Vec<bool>)>>)
    ensures
        (match r {
            Option::Some(v) => forall|d: Seq<(i32, bool, bool, Seq<bool>)>|
                s@ == #[trigger] json_of(d) ==> save_view(v@) == d,
            Option::None => forall|d: Seq<(i32, bool, bool, Seq<bool>)>|
                s@ != #[trigger] json_of(d),
        }),
{
    serde_json::from_str(s).ok()
}

/// Serialize a board for saving: per cell the tuple of its value, colour,
/// fixedness and pencil marks, as one JSON array.
pub fn save_game(cells: &Vec<Cell>) -> (r: String)
    ensures
        r@ == json_of(board_save_view(cells@)),
{
    let n = cells.len();
    let mut data: Vec<(i32, bool, bool, Vec<bool>)> = Vec::new();
    let mut i: usize = 0;
    while i < n
        invariant
            i <= n,
            n == cells@.len(),
            data@.len() == i,
            save_view(data@) == board_save_view(cells@.take(i as int)),
        decreases n - i,
    {
        let c = cells[i];
        let mut marks: Vec<bool> = Vec::new();
        let mut k: usize = 0;
        while k < 9
            invariant
                k <= 9,
                marks@.len() == k,
                forall|t: int| 0 <= t < k ==> marks@[t] == c.small_values@[t],
        decreases 9 - k,
        {
            marks.push(c.small_values[k]);
            k += 1;
        }
        proof {
            assert(marks@ =~= c.small_values@);
        }
        let ghost old_data = data@;
        let ghost tup = (c.value, c.is_white, c.is_fixed, marks);
        data.push((c.value, c.is_white, c.is_fixed, marks));
        proof {
            let dv = save_view(data@);
            let bv = board_save_view(cells@.take(i + 1));
            assert forall|t: int| 0 <= t < dv.len() implies dv[t] == bv[t] by {
                if t < i {
                    assert(data@[t] == old_data[t]);
                    assert(save_view(old_data)[t] == board_save_view(cells@.take(i as int))[t]);
                    assert(cells@.take(i as int)[t] == cells@.take(i + 1)[t]);
                } else {
                    assert(data@[t] == tup);
                    assert(tup.3@ == c.small_values@);
                    assert(cells@.take(i + 1)[t] == cells@[i as int]);
                }
            }
            assert(dv =~= bv);
        }
        i += 1;
    }
    proof {
        assert(cells@.take(n as int) =~= cells@);
        assert(save_view(data@) == board_save_view(cells@));
    }
    to_json(&data)
}

/// Load a persisted game into the board: parse the JSON text, reject it
/// when it does not hold exactly 81 cells, a value lies outside the empty
/// marker and the digits, or a pencil-mark array is not 9 long; otherwise
/// overwrite every cell's value, colour, fixedness and pencil marks, keeping
/// its editing state and validity flags. On rejection the board is left
/// untouched. Text that `save_game` produced for a well-formed board is
/// always accepted.
pub fn load_game(s: &str, cells: &mut Vec<Cell>) -> (r: Result<(), LoadError>)
    requires
        old(cells)@.len() == 81,
    ensures
        forall|d: Seq<(i32, bool, bool, Seq<bool>)>|
            s@ == #[trigger] json_of(d) ==> (r is Ok <==> save_data_ok(d)),
        forall|d: Seq<(i32, bool, bool, Seq<bool>)>|
            s@ == #[trigger] json_of(d) && save_data_ok(d) ==> loaded_from(
                final(cells)@,
                old(cells)@,
                d,
            ),
        r is Ok ==> exists|d: Seq<(i32, bool, bool, Seq<bool>)>|
            #[trigger] save_data_ok(d) && loaded_from(final(cells)@, old(cells)@, d),
        r is Err ==> final(cells)@ == old(cells)@,
{
    let parsed = from_json(s);
    let data = match parsed {
        Option::Some(v) => v,
        Option::None => {
            return Err(LoadError::Parse);
        },
    };
    let ghost d = save_view(data@);
    proof {
        assert forall|dx: Seq<(i32, bool, bool, Seq<bool>)>| s@ == #[trigger] json_of(dx) implies dx
            == d by {}
    }
    if data.len() != 81 {
        proof {
            assert(!save_data_ok(d));
        }
        return Err(LoadError::CellCount);
    }
    // validate every entry before touching the board
    let mut i: usize = 0;
    while i < 81
        invariant
            i <= 81,
            data@.len() == 81,
            d == save_view(data@),
            cells@ == old(cells)@,
            forall|dx: Seq<(i32, bool, bool, Seq<bool>)>| s@ == #[trigger] json_of(dx) ==> dx == d,
            forall|t: int|
                0 <= t < i ==> (((#[trigger] d[t]).0 == -1 || 1 <= d[t].0 <= 9) && d[t].3.len()
                    == 9),
        decreases 81 - i,
    {
        let e = &data[i];
        proof {
            assert(d[i as int] == (data@[i as int].0, data@[i as int].1, data@[i as int].2, data@[
                i as int].3@));
        }
        if !(e.0 == -1 || (1 <= e.0 && e.0 <= 9)) {
            proof {
                assert(e.0 == d[i as int].0);
                assert(!save_data_ok(d));
            }
            return Err(LoadError::CellValue);
        }
        if e.3.len() != 9 {
            proof {
                assert(e.3@.len() == d[i as int].3.len());
                assert(!save_data_ok(d));
            }
            return Err(LoadError::PencilMarks);
        }
        i += 1;
    }
    proof {
        assert(save_data_ok(d));
    }
    // apply the data
    let ghost before = cells@;
    let mut i: usize = 0;
    while i < 81
        invariant
            i <= 81,
            cells@.len() == 81,
            data@.len() == 81,
            d == save_view(data@),
            save_data_ok(d),
            before.len() == 81,
            forall|t: int| i <= t < 81 ==> #[trigger] cells@[t] == before[t],
            forall|t: int|
                0 <= t < i ==> {
                    &&& (#[trigger] cells@[t]).value == d[t].0
                    &&& cells@[t].is_white == d[t].1
                    &&& cells@[t].is_fixed == d[t].2
                    &&& cells@[t].small_values@ == d[t].3
                    &&& cells@[t].is_editing == before[t].is_editing
                    &&& cells@[t].is_valid_in_row == before[t].is_valid_in_row
                    &&& cells@[t].is_valid_in_straight == before[t].is_valid_in_straight
                },
        decreases 81 - i,
    {
        let e = &data[i];
        let marks = &e.3;
        proof {
            assert(d[i as int] == (data@[i as int].0, data@[i as int].1, data@[i as int].2, data@[
                i as int].3@));
            assert(marks@.len() == 9);
        }
        let small: [bool; 9] = [marks[0], marks[1], marks[2], marks[3], marks[4], marks[5], marks[6], marks[7], marks[8]];
        proof {
            assert(small@ =~= marks@);
        }
        let mut c = cells[i];
        c.value = e.0;
        c.is_white = e.1;
        c.is_fixed = e.2;
        c.small_values = small;
        cells[i] = c;
        i += 1;
    }
    proof {
        assert(loaded_from(cells@, before, d));
    }
    Ok(())
}

/// Persisted data made from a well-formed board is always accepted back.
pub proof fn lemma_save_data_ok(b: Seq<Cell>)
    requires
        board_wf(b),
    ensures
        save_data_ok(board_save_view(b)),
{
    assert forall|i: int|
        0 <= i < 81 implies (((#[trigger] board_save_view(b)[i]).0 == -1 || 1 <= board_save_view(
        b,
    )[i].0 <= 9) && board_save_view(b)[i].3.len() == 9) by {
        assert(b[i].wf());
    }
}

/// The round trip: a board serialized by `save_game` and loaded back by
/// `load_game` is restored cell for cell, in its value, colour, fixedness
/// and pencil marks, whatever board was loaded over.
pub proof fn lemma_round_trip(b: Seq<Cell>, old_cells: Seq<Cell>, new_cells: Seq<Cell>)
    requires
        board_wf(b),
        loaded_from(new_cells, old_cells, board_save_view(b)),
    ensures
        forall|i: int|
            0 <= i < 81 ==> {
                &&& (#[trigger] new_cells[i]).value == b[i].value
                &&& new_cells[i].is_white == b[i].is_white
                &&& new_cells[i].is_fixed == b[i].is_fixed
                &&& new_cells[i].small_values@ == b[i].small_values@
            },
{
    assert forall|i: int|
        0 <= i < 81 implies {
            &&& (#[trigger] new_cells[i]).value == b[i].value
            &&& new_cells[i].is_white == b[i].is_white
            &&& new_cells[i].is_fixed == b[i].is_fixed
            &&& new_cells[i].small_values@ == b[i].small_values@
        } by {
        assert(board_save_view(b)[i] == (b[i].value, b[i].is_white, b[i].is_fixed, b[i].small_values@));
    }
}

} // verus!
