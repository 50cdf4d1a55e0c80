use vstd::prelude::*;

verus! {

/// A state of a search problem: a row and a column.
#[derive(PartialEq, Eq, Structural, Debug, Clone)]
pub struct State {
    pub row: u32,
    pub column: u32,
}

impl State {
    /// Returns the state at `row` and `column`.
    pub fn new(row: u32, column: u32) -> (state: State)
        ensures
            state.row == row,
            state.column == column,
    {
        State { row, column }
    }

    /// The Manhattan distance between two states: the difference of the
    /// rows plus the difference of the columns.
    pub open spec fn spec_distance(self, other: State) -> nat {
        let rows = if self.row >= other.row {
            self.row - other.row
        } else {
            other.row - self.row
        };
        let columns = if self.column >= other.column {
            self.column - other.column
        } else {
            other.column - self.column
        };
        (rows + columns) as nat
    }

    /// Returns the Manhattan distance between this state and `state`.
    pub fn distance(&self, state: &State) -> (distance: u32)
        requires
            self.spec_distance(*state) <= u32::MAX,
        ensures
            distance == self.spec_distance(*state),
    {
        let rows = if self.row >= state.row {
            self.row - state.row
        } else {
            state.row - self.row
        };
        let columns = if self.column >= state.column {
            self.column - state.column
        } else {
            state.column - self.column
        };
        rows + columns
    }
}

} // verus!
