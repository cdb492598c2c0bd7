use vstd::prelude::*;

verus! {

/// One cell of the 9x9 grid. `value` is `-1` for an empty cell, otherwise a
/// digit 1..=9. `is_white` selects the colour (white cells are playable and
/// belong to straights, black cells block them). `is_fixed` marks a puzzle
/// clue that the player may not edit. The two validity flags are owned by the
/// validator; `small_values` (pencil marks) and `is_editing` belong to the
/// caller's display layer and are never touched by the solving core.
#[derive(Clone, Copy)]
#[verifier::ext_equal]
pub struct Cell {
    pub value: i32,
    pub is_white: bool,
    pub is_fixed: bool,
    pub is_editing: bool,
    pub is_valid_in_row: bool,
    pub is_valid_in_straight: bool,
    pub small_values: [bool; 9],
}

impl Cell {
    /// The cell invariant: the value is the empty marker or a digit.
    pub open spec fn wf(self) -> bool {
        self.value == -1 || (1 <= self.value && self.value <= 9)
    }

    /// A cell holds a digit when its value is positive.
    pub open spec fn filled(self) -> bool {
        self.value > 0
    }

    pub fn new(value: i32, is_white: bool, is_fixed: bool) -> (c: Cell)
        ensures
            c.value == value,
            c.is_white == is_white,
            c.is_fixed == is_fixed,
            !c.is_editing,
            c.is_valid_in_row,
            c.is_valid_in_straight,
            forall|k: int| 0 <= k < 9 ==> !c.small_values@[k],
    {
        Cell {
            value,
            is_white,
            is_fixed,
            is_editing: false,
            is_valid_in_row: true,
            is_valid_in_straight: true,
            small_values: [false; 9],
        }
    }
}

/// A board is exactly 81 well-formed cells, row-major.
pub open spec fn board_wf(cells: Seq<Cell>) -> bool {
    &&& cells.len() == 81
    &&& forall|i: int| 0 <= i < cells.len() ==> #[trigger] cells[i].wf()
}

/// The two cells agree on everything but the two validity flags.
pub open spec fn same_but_flags(a: Cell, b: Cell) -> bool {
    &&& a.value == b.value
    &&& a.is_white == b.is_white
    &&& a.is_fixed == b.is_fixed
    &&& a.is_editing == b.is_editing
    &&& a.small_values@ == b.small_values@
}

/// The two cells agree on everything but their value: colour, fixedness,
/// pencil marks, editing state and validity flags.
pub open spec fn same_but_value(a: Cell, b: Cell) -> bool {
    &&& a.is_white == b.is_white
    &&& a.is_fixed == b.is_fixed
    &&& a.is_editing == b.is_editing
    &&& a.is_valid_in_row == b.is_valid_in_row
    &&& a.is_valid_in_straight == b.is_valid_in_straight
    &&& a.small_values@ =~= b.small_values@
}

} // verus!
