use vstd::prelude::*;

verus! {

/// Represents (row, col) coordinates in the grid.
pub type RowCol = (u32, u32);

/// Absolute difference of two cell coordinates.
pub open spec fn abs_diff(a: u32, b: u32) -> nat {
    if a <= b {
        (b - a) as nat
    } else {
        (a - b) as nat
    }
}

/// Number of diagonal moves on a shortest 8-connected path between two cells.
pub open spec fn diagonal_steps(a: RowCol, b: RowCol) -> nat {
    let dx = abs_diff(a.1, b.1);
    let dy = abs_diff(a.0, b.0);
    if dx <= dy { dx } else { dy }
}

/// Number of straight moves on a shortest 8-connected path between two cells.
pub open spec fn straight_steps(a: RowCol, b: RowCol) -> nat {
    let dx = abs_diff(a.1, b.1);
    let dy = abs_diff(a.0, b.0);
    if dx <= dy { (dy - dx) as nat } else { (dx - dy) as nat }
}

/// Splits the 8-connectivity distance between two cells into its
/// diagonal and straight moves: the distance itself is
/// `sqrt(2) * diagonals + straights`.
pub fn steps8(rowcol1: RowCol, rowcol2: RowCol) -> (r: (u32, u32))
    ensures
        r.0 == diagonal_steps(rowcol1, rowcol2),
        r.1 == straight_steps(rowcol1, rowcol2),
{
    let (row1, col1) = rowcol1;
    let (row2, col2) = rowcol2;
    let dx = if col1 <= col2 { col2 - col1 } else { col1 - col2 };
    let dy = if row1 <= row2 { row2 - row1 } else { row1 - row2 };
    let diagonals = if dx <= dy { dx } else { dy };
    let longest = if dx <= dy { dy } else { dx };
    (diagonals, longest - diagonals)
}

/// The 8-connectivity distance is symmetric, and zero from a cell to itself.
pub proof fn lemma_steps8_symmetric(a: RowCol, b: RowCol)
    ensures
        diagonal_steps(a, b) == diagonal_steps(b, a),
        straight_steps(a, b) == straight_steps(b, a),
        diagonal_steps(a, a) == 0,
        straight_steps(a, a) == 0,
{
}

} // verus!
