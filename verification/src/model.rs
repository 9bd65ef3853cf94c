//! Shared value types of the library: colors, cell states, instructions and
//! the error kinds every component reports.

use vstd::prelude::*;

verus! {

/// A player color.
#[derive(Clone, Copy, Debug, PartialEq, Eq, Structural)]
pub enum GoColor {
    White,
    Black,
}

/// The state a setup directive assigns to a point: a stone of either color,
/// or explicitly free.
#[derive(Clone, Copy, Debug, PartialEq, Eq, Structural)]
pub enum PointSt {
    White,
    Black,
    Free,
}

/// One cell of the reconstructed grid.
#[derive(Clone, Copy, Debug, PartialEq, Eq, Structural)]
pub enum Cell {
    Empty,
    Occupied(GoColor),
}

/// A normalized directive extracted from one record node. Positions are
/// zero-based `(x, y)` pairs.
#[derive(Clone, Copy, Debug, PartialEq, Eq)]
pub enum Instruction {
    /// A played stone; switches the color to move next to the opponent.
    Move((usize, usize), GoColor),
    /// A stone placed or cleared outside the normal flow of play.
    Setup((usize, usize), PointSt),
    /// Overrides the color to move next without touching the grid.
    NextPlayer(GoColor),
}

/// Every failure the core reports. All are recoverable by the caller.
#[derive(Clone, Copy, Debug, PartialEq, Eq, Structural)]
pub enum GoError {
    /// A coordinate character outside `a..=z` / `A..=Z`.
    InvalidCoordinate,
    /// A coordinate string with fewer than two characters.
    MalformedCoordinate,
    /// A path element with no corresponding child in the record tree.
    PathNotFound,
    /// An instruction position outside the board's declared dimensions.
    CoordinateOutOfBounds,
    /// The root node lacks a usable board-size directive.
    MissingBoardSize,
}

/// The opponent of `c`.
pub open spec fn opposite_spec(c: GoColor) -> GoColor {
    match c {
        GoColor::White => GoColor::Black,
        GoColor::Black => GoColor::White,
    }
}

/// The opponent of `c`.
pub fn opposite(c: GoColor) -> (r: GoColor)
    ensures
        r == opposite_spec(c),
{
    match c {
        GoColor::White => GoColor::Black,
        GoColor::Black => GoColor::White,
    }
}

/// The cell state a setup directive writes.
pub open spec fn cell_of_spec(st: PointSt) -> Cell {
    match st {
        PointSt::White => Cell::Occupied(GoColor::White),
        PointSt::Black => Cell::Occupied(GoColor::Black),
        PointSt::Free => Cell::Empty,
    }
}

/// The cell state a setup directive writes.
pub fn cell_of(st: PointSt) -> (r: Cell)
    ensures
        r == cell_of_spec(st),
{
    match st {
        PointSt::White => Cell::Occupied(GoColor::White),
        PointSt::Black => Cell::Occupied(GoColor::Black),
        PointSt::Free => Cell::Empty,
    }
}

} // verus!
