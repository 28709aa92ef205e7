//! Grid coordinates and bounds-checked directional offsets.

use vstd::prelude::*;

verus! {

/// A 2D grid coordinate. Row 0 is the top row, column 0 the leftmost column.
#[derive(Debug, Copy, Clone, PartialEq, Eq, Structural)]
pub struct Position {
    pub row: usize,
    pub column: usize,
}

impl Position {
    pub fn new(row: usize, column: usize) -> (r: Self)
        ensures
            r.row == row,
            r.column == column,
    {
        Self { row, column }
    }

    /// Moves the coordinate by the given deltas. Fails exactly when the
    /// result would have a negative coordinate; exceeding the grid's far
    /// edge is not detected here, only later at cell lookup.
    pub fn offset(&self, row_offset: isize, col_offset: isize) -> (r: Result<Position, ()>)
        requires
            self.row <= isize::MAX,
            self.column <= isize::MAX,
            self.row + row_offset <= isize::MAX,
            self.column + col_offset <= isize::MAX,
        ensures
            r is Err <==> self.row + row_offset < 0 || self.column + col_offset < 0,
            r matches Ok(p) ==> p.row == self.row + row_offset && p.column == self.column + col_offset,
    {
        let new_row = (self.row as isize) + row_offset;
        let new_col = (self.column as isize) + col_offset;
        if new_row < 0 || new_col < 0 {
            Err(())
        } else {
            Ok(Position { row: new_row as usize, column: new_col as usize })
        }
    }
}

} // verus!
