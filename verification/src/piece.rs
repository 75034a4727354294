use vstd::prelude::*;

verus! {

/// The kind of a chess piece; `Unknown` is the placeholder kind of an unknown move.
#[derive(Debug, Clone, Copy, PartialEq, Eq, Hash, Structural)]
pub enum PieceType {
    Unknown,
    Pawn,
    Knight,
    Bishop,
    Rook,
    Queen,
    King,
}

/// The side a piece belongs to.
#[derive(Debug, Clone, Copy, PartialEq, Eq, Hash, Structural)]
pub enum Color {
    White,
    Black,
}

/// A piece of a given kind and color standing on `pos` = (rank, file).
#[derive(Debug, Clone, Copy, Eq, Hash)]
pub struct Piece {
    pub tp: PieceType,
    pub pos: (u8, u8),
    pub col: Color,
}

/// A move: the piece before and after it moves, and the piece it takes, if any.
#[derive(Debug, Clone, Copy, Eq)]
pub struct Move {
    pub start_piece: Piece,
    pub end_piece: Piece,
    pub captured_piece: Option<Piece>,
}

impl PartialEq for Piece {
    fn eq(&self, other: &Piece) -> (r: bool) {
        self.tp == other.tp && self.pos.0 == other.pos.0 && self.pos.1 == other.pos.1
            && self.col == other.col
    }
}

impl vstd::std_specs::cmp::PartialEqSpecImpl for Piece {
    open spec fn obeys_eq_spec() -> bool {
        true
    }

    open spec fn eq_spec(&self, other: &Piece) -> bool {
        *self == *other
    }
}

/// Equality of two optional pieces.
fn same_option_piece(a: &Option<Piece>, b: &Option<Piece>) -> (r: bool)
    ensures
        r == (*a == *b),
{
    match (a, b) {
        (Some(x), Some(y)) => x == y,
        (None, None) => true,
        _ => false,
    }
}

impl PartialEq for Move {
    fn eq(&self, other: &Move) -> (r: bool) {
        self.start_piece == other.start_piece && self.end_piece == other.end_piece
            && same_option_piece(&self.captured_piece, &other.captured_piece)
    }
}

impl vstd::std_specs::cmp::PartialEqSpecImpl for Move {
    open spec fn obeys_eq_spec() -> bool {
        true
    }

    open spec fn eq_spec(&self, other: &Move) -> bool {
        *self == *other
    }
}

impl Move {
    /// The placeholder for a move whose details are not known (a move played
    /// before a position read from FEN).
    pub open spec fn placeholder() -> Move {
        Move {
            start_piece: Piece { tp: PieceType::Unknown, pos: (0, 0), col: Color::White },
            end_piece: Piece { tp: PieceType::Unknown, pos: (0, 0), col: Color::White },
            captured_piece: None,
        }
    }

    /// The placeholder move.
    pub fn unknown_move() -> (r: Move)
        ensures
            r == Move::placeholder(),
    {
        Move {
            start_piece: Piece { tp: PieceType::Unknown, pos: (0, 0), col: Color::White },
            end_piece: Piece { tp: PieceType::Unknown, pos: (0, 0), col: Color::White },
            captured_piece: None,
        }
    }
}

impl Default for PieceType {
    /// The kind of an unknown piece.
    fn default() -> (r: PieceType)
        ensures
            r == PieceType::Unknown,
    {
        PieceType::Unknown
    }
}

impl Default for Color {
    /// White.
    fn default() -> (r: Color)
        ensures
            r == Color::White,
    {
        Color::White
    }
}

impl Default for Piece {
    /// An unknown white piece on (0, 0).
    fn default() -> (r: Piece)
        ensures
            r == (Piece { tp: PieceType::Unknown, pos: (0, 0), col: Color::White }),
    {
        Piece { tp: PieceType::default(), pos: (0, 0), col: Color::default() }
    }
}

impl Default for Move {
    /// The placeholder move: default pieces and no capture.
    fn default() -> (r: Move)
        ensures
            r == Move::placeholder(),
    {
        Move { start_piece: Piece::default(), end_piece: Piece::default(), captured_piece: None }
    }
}

/// The ways a move can be refused.
#[derive(Debug, Clone, Copy)]
pub enum MoveError {
    OutOfBounds,
    SelfCapture,
    SelfCheck,
    NoStartingPiece,
    CapturingEmptySquare,
}

impl MoveError {
    /// The message that describes the error.
    pub open spec fn message(self) -> Seq<char> {
        match self {
            MoveError::OutOfBounds => "Move is out of bounds"@,
            MoveError::SelfCapture => "Can't capture your own piece"@,
            MoveError::SelfCheck => "Move would result in a check on self"@,
            MoveError::NoStartingPiece => "No piece at the starting position"@,
            MoveError::CapturingEmptySquare => "Attempting to capture empty square"@,
        }
    }

    /// The message that describes the error, as text.
    pub fn to_string(&self) -> (r: String)
        ensures
            r@ == self.message(),
    {
        match *self {
            MoveError::OutOfBounds => "Move is out of bounds".to_owned(),
            MoveError::SelfCapture => "Can't capture your own piece".to_owned(),
            MoveError::SelfCheck => "Move would result in a check on self".to_owned(),
            MoveError::NoStartingPiece => "No piece at the starting position".to_owned(),
            MoveError::CapturingEmptySquare => "Attempting to capture empty square".to_owned(),
        }
    }
}

} // verus!
