//! Move generation: the moves each kind of piece can make on a board, which of
//! them are legal, and the checks `play_move` applies.
use vstd::prelude::*;
use crate::bitboard::{bit_set, on_board, square_index};
use crate::board::{Board, BoardModel, lemma_play_consistent, lemma_play_typed, move_on_board, typed};
use crate::piece::{Color, Move, MoveError, Piece, PieceType};
use crate::pieces::{contains_piece, find_at, first_at, lemma_first_at, occupies};

verus! {

/// The kinds of piece that move by one of a grid of deltas rather than by sliding.
#[derive(Debug, Clone, Copy, PartialEq, Eq, Structural)]
pub enum Jump {
    King,
    Knight,
    Pawn,
}

/// `x` moved `k` steps in direction `d` (the sign of `d`).
pub open spec fn offset(x: int, d: int, k: int) -> int {
    if d > 0 {
        x + k
    } else if d < 0 {
        x - k
    } else {
        x
    }
}

/// A coordinate read as a signed byte (`as i8`): values from 128 up wrap to negatives.
pub open spec fn as_signed(x: u8) -> int {
    if x < 128 {
        x as int
    } else {
        x - 256
    }
}

/// `x` fits a signed byte.
pub open spec fn fits_i8(x: int) -> bool {
    -128 <= x <= 127
}

/// A coordinate inside the board.
pub open spec fn in_range(x: int) -> bool {
    0 <= x < 8
}

/// The deltas (dr, dc) with lo_r <= dr < lo_r + n_r and lo_c <= dc < lo_c + n_c,
/// dr first: the order in which they are tried.
pub open spec fn grid(lo_r: int, n_r: int, lo_c: int, n_c: int) -> Seq<(int, int)> {
    Seq::new((n_r * n_c) as nat, |i: int| (lo_r + i / n_c, lo_c + i % n_c))
}

/// The grid of deltas tried for each kind of jumping piece: -1..=1 squared for
/// the king, -2..=2 squared for the knight, -2..=2 by -1..=1 for the pawn.
pub open spec fn deltas(kind: Jump) -> Seq<(int, int)> {
    match kind {
        Jump::King => grid(-1, 3, -1, 3),
        Jump::Knight => grid(-2, 5, -2, 5),
        Jump::Pawn => grid(-2, 5, -1, 3),
    }
}

pub open spec fn abs(x: int) -> int {
    if x < 0 {
        -x
    } else {
        x
    }
}

/// Which deltas a piece may try: all for the king; those of length 3 for the
/// knight; for a pawn, forward only (up the rows for White, down for Black), two
/// squares only from the second or seventh rank, and never two squares with a
/// side step.
pub open spec fn delta_allowed(kind: Jump, p: Piece, d: (int, int)) -> bool {
    match kind {
        Jump::King => true,
        Jump::Knight => abs(d.0) + abs(d.1) == 3,
        Jump::Pawn => {
            &&& (if p.col == Color::White {
                d.0 > 0
            } else {
                d.0 < 0
            })
            &&& (abs(d.0) == 2 ==> (p.pos.0 == 1 || p.pos.0 == 6))
            &&& abs(d.0) + abs(d.1) < 3
        },
    }
}

/// Trying delta `d` overflows a signed byte: the row is computed for every
/// allowed delta, the column only when the row lands on the board.
pub open spec fn delta_overflows(kind: Jump, p: Piece, d: (int, int)) -> bool {
    let r = as_signed(p.pos.0) + d.0;
    let c = as_signed(p.pos.1) + d.1;
    delta_allowed(kind, p, d) && (!fits_i8(r) || (in_range(r) && !fits_i8(c)))
}

/// Generating the jumps of `p` overflows a signed byte for some delta, which
/// stops the program; this happens only for pieces far off the board.
pub open spec fn jump_overflows(kind: Jump, p: Piece) -> bool {
    exists|i: int| 0 <= i < deltas(kind).len() && delta_overflows(kind, p, #[trigger] deltas(kind)[i])
}

/// The moves of `p` can be generated without stopping the program: sliding
/// pieces must stand on the board, jumping pieces must not overflow.
pub open spec fn moves_defined(p: Piece) -> bool {
    match p.tp {
        PieceType::Unknown => false,
        PieceType::Bishop | PieceType::Rook | PieceType::Queen => on_board(p.pos),
        PieceType::Pawn => !jump_overflows(Jump::Pawn, p),
        PieceType::Knight => !jump_overflows(Jump::Knight, p),
        PieceType::King => !jump_overflows(Jump::King, p),
    }
}

/// A piece with a kind standing on the board has its moves defined.
pub proof fn lemma_on_board_defined(p: Piece)
    requires
        on_board(p.pos),
        p.tp != PieceType::Unknown,
    ensures
        moves_defined(p),
{
    assert forall|kind: Jump, i: int| 0 <= i < deltas(kind).len() implies !delta_overflows(
        kind,
        p,
        #[trigger] deltas(kind)[i],
    ) by {
        let d = deltas(kind)[i];
        assert(-2 <= d.0 <= 2 && -2 <= d.1 <= 2) by {
            match kind {
                Jump::King => {
                    assert(0 <= i / 3 < 3 && 0 <= i % 3 < 3) by (nonlinear_arith)
                        requires
                            0 <= i < 9,
                    ;
                },
                Jump::Knight => {
                    assert(0 <= i / 5 < 5 && 0 <= i % 5 < 5) by (nonlinear_arith)
                        requires
                            0 <= i < 25,
                    ;
                },
                Jump::Pawn => {
                    assert(0 <= i / 3 < 5 && 0 <= i % 3 < 3) by (nonlinear_arith)
                        requires
                            0 <= i < 15,
                    ;
                },
            }
        }
    }
}

/// A pawn does not move diagonally unless it captures.
pub open spec fn keep_move(kind: Jump, m: Move) -> bool {
    match kind {
        Jump::Pawn => !(abs(m.end_piece.pos.0 - m.start_piece.pos.0) == 1 && abs(
            m.end_piece.pos.1 - m.start_piece.pos.1,
        ) == 1 && m.captured_piece is None),
        _ => true,
    }
}

/// A move is out of bounds when its destination, or the square of the piece it
/// names as taken, is off the board.
pub open spec fn out_of_bounds(m: Move) -> bool {
    ||| !on_board(m.end_piece.pos)
    ||| (m.captured_piece matches Some(c) && !on_board(c.pos))
}

/// `m` takes a king.
pub open spec fn takes_king(m: Move) -> bool {
    match m.captured_piece {
        Some(c) => c.tp == PieceType::King,
        None => false,
    }
}

/// Some move of `ms` takes a king.
pub open spec fn captures_king(ms: Seq<Move>) -> bool {
    exists|i: int|
        0 <= i < ms.len() && takes_king(#[trigger] ms[i])
}

impl BoardModel {
    /// The move of `p` to `pos` for the side to play: none when the square holds
    /// a piece of the side to play; a capture of the other side's first piece on
    /// it when its bitboard has the square; else a quiet move. The piece keeps
    /// its kind and color.
    pub open spec fn move_to(self, p: Piece, pos: (u8, u8)) -> Option<Move> {
        let end = Piece { tp: p.tp, pos: pos, col: p.col };
        if bit_set(self.mover_bb(), square_index(pos)) {
            None
        } else if bit_set(self.opponent_bb(), square_index(pos)) {
            Some(
                Move {
                    start_piece: p,
                    end_piece: end,
                    captured_piece: first_at(self.opponent_pieces(), pos),
                },
            )
        } else {
            Some(Move { start_piece: p, end_piece: end, captured_piece: None })
        }
    }

    /// The moves of `p` sliding from step `k` on in direction (dr, dc): onto
    /// each free square, stopping at the board's edge, before a square of its own
    /// side, and after the first capture.
    pub open spec fn ray(self, p: Piece, dr: int, dc: int, k: int) -> Seq<Move>
        decreases 8 - k,
    {
        if k >= 8 {
            Seq::empty()
        } else {
            let r = offset(p.pos.0 as int, dr, k);
            let c = offset(p.pos.1 as int, dc, k);
            if !(in_range(r) && in_range(c)) {
                Seq::empty()
            } else {
                match self.move_to(p, (r as u8, c as u8)) {
                    None => Seq::empty(),
                    Some(m) => if m.captured_piece is Some {
                        seq![m]
                    } else {
                        seq![m] + self.ray(p, dr, dc, k + 1)
                    },
                }
            }
        }
    }

    /// Rook moves: along the rank up the files, down the files, then along the
    /// file up the ranks, down the ranks.
    pub open spec fn rook_moves(self, p: Piece) -> Seq<Move> {
        self.ray(p, 0, 1, 1) + self.ray(p, 0, -1, 1) + self.ray(p, 1, 0, 1) + self.ray(p, -1, 0, 1)
    }

    /// Bishop moves: the four diagonals, (+,+), (+,-), (-,+), (-,-).
    pub open spec fn bishop_moves(self, p: Piece) -> Seq<Move> {
        self.ray(p, 1, 1, 1) + self.ray(p, 1, -1, 1) + self.ray(p, -1, 1, 1) + self.ray(p, -1, -1, 1)
    }

    /// The move of a jumping piece `p` by delta `d`, if it is allowed, lands on
    /// the board, is not onto its own side and is kept.
    pub open spec fn jump_at(self, p: Piece, kind: Jump, d: (int, int)) -> Option<Move> {
        let r = as_signed(p.pos.0) + d.0;
        let c = as_signed(p.pos.1) + d.1;
        if delta_allowed(kind, p, d) && in_range(r) && in_range(c) {
            match self.move_to(p, (r as u8, c as u8)) {
                Some(m) => if keep_move(kind, m) {
                    Some(m)
                } else {
                    None
                },
                None => None,
            }
        } else {
            None
        }
    }

    /// The jumps of `p` over the first `n` deltas of its grid, in order.
    pub open spec fn jumps(self, p: Piece, kind: Jump, n: int) -> Seq<Move>
        decreases n,
    {
        if n <= 0 {
            Seq::empty()
        } else {
            let prev = self.jumps(p, kind, n - 1);
            match self.jump_at(p, kind, deltas(kind)[n - 1]) {
                Some(m) => prev.push(m),
                None => prev,
            }
        }
    }

    /// All jumps of `p` of the given kind.
    pub open spec fn jump_moves(self, p: Piece, kind: Jump) -> Seq<Move> {
        self.jumps(p, kind, deltas(kind).len() as int)
    }

    /// The moves of `p` by its kind; a queen moves as a bishop, then as a rook.
    pub open spec fn piece_moves(self, p: Piece) -> Seq<Move> {
        match p.tp {
            PieceType::Unknown => Seq::empty(),
            PieceType::Pawn => self.jump_moves(p, Jump::Pawn),
            PieceType::Knight => self.jump_moves(p, Jump::Knight),
            PieceType::Bishop => self.bishop_moves(p),
            PieceType::Rook => self.rook_moves(p),
            PieceType::Queen => self.bishop_moves(p) + self.rook_moves(p),
            PieceType::King => self.jump_moves(p, Jump::King),
        }
    }

    /// The moves of the pieces of `ps`, piece after piece.
    pub open spec fn moves_of(self, ps: Seq<Piece>) -> Seq<Move>
        decreases ps.len(),
    {
        if ps.len() == 0 {
            Seq::empty()
        } else {
            self.moves_of(ps.drop_last()) + self.piece_moves(ps.last())
        }
    }

    /// All moves of the side to play, legal or not.
    pub open spec fn all_moves(self) -> Seq<Move> {
        self.moves_of(self.mover_pieces())
    }

    /// `m` takes a piece on a square of the side to play.
    pub open spec fn self_capture(self, m: Move) -> bool {
        match m.captured_piece {
            Some(c) => bit_set(self.mover_bb(), square_index(c.pos)),
            None => false,
        }
    }

    /// After `m`, some move of the other side takes a king.
    pub open spec fn self_check(self, m: Move) -> bool {
        captures_king(self.play(m).all_moves())
    }

    /// `m` names a captured piece on a square no side occupies.
    pub open spec fn capturing_empty_square(self, m: Move) -> bool {
        match m.captured_piece {
            Some(c) => !bit_set(self.white_bb | self.black_bb, square_index(c.pos)),
            None => false,
        }
    }

    /// A move is legal when it takes no piece of its own side and leaves no king
    /// of its side to be taken.
    pub open spec fn legal(self, m: Move) -> bool {
        !self.self_capture(m) && !self.self_check(m)
    }

    /// The legal moves among `ms`, in order.
    pub open spec fn legal_only(self, ms: Seq<Move>) -> Seq<Move>
        decreases ms.len(),
    {
        if ms.len() == 0 {
            Seq::empty()
        } else {
            let prev = self.legal_only(ms.drop_last());
            if self.legal(ms.last()) {
                prev.push(ms.last())
            } else {
                prev
            }
        }
    }

    /// The legal moves of the pieces of `ps`, piece after piece.
    pub open spec fn legal_of(self, ps: Seq<Piece>) -> Seq<Move>
        decreases ps.len(),
    {
        if ps.len() == 0 {
            Seq::empty()
        } else {
            self.legal_of(ps.drop_last()) + self.legal_only(self.piece_moves(ps.last()))
        }
    }

    /// The legal moves of the side to play.
    pub open spec fn legal_moves(self) -> Seq<Move> {
        self.legal_of(self.mover_pieces())
    }

    /// After `m`, every piece of the side then to play has a kind, so that its
    /// moves can be searched for a king capture.
    pub open spec fn check_defined(self, m: Move) -> bool {
        typed(self.play(m).mover_pieces())
    }

    /// Every move of `ms` that takes no piece of its own side can be checked for
    /// leaving a king to be taken.
    pub open spec fn checks_defined(self, ms: Seq<Move>) -> bool {
        forall|i: int|
            0 <= i < ms.len() && !self.self_capture(#[trigger] ms[i]) ==> self.check_defined(ms[i])
    }

    /// Legal-move generation can run: every piece of the side to play has a
    /// kind, and every move that takes no piece of its own side can be checked.
    pub open spec fn legal_moves_defined(self) -> bool {
        typed(self.mover_pieces()) && self.checks_defined(self.all_moves())
    }

    /// What `play_move` answers to `m`: the first check that fails, in the order
    /// bounds, own capture, moving piece missing, own king left to be taken,
    /// capture of an empty square.
    pub open spec fn move_outcome(self, m: Move) -> Result<(), MoveError> {
        if out_of_bounds(m) {
            Err(MoveError::OutOfBounds)
        } else if self.self_capture(m) {
            Err(MoveError::SelfCapture)
        } else if !self.mover_pieces().contains(m.start_piece) {
            Err(MoveError::NoStartingPiece)
        } else if self.self_check(m) {
            Err(MoveError::SelfCheck)
        } else if self.capturing_empty_square(m) {
            Err(MoveError::CapturingEmptySquare)
        } else {
            Ok(())
        }
    }
}

/// `m` is a move the generator can produce for `p` on `b`: it starts from `p`,
/// ends on the board on a square not of the side to play with `p`'s kind and
/// color, and captures only a piece of the other side standing there.
pub open spec fn generated(b: BoardModel, p: Piece, m: Move) -> bool {
    &&& m.start_piece == p
    &&& m.end_piece == Piece { tp: p.tp, pos: m.end_piece.pos, col: p.col }
    &&& on_board(m.end_piece.pos)
    &&& !bit_set(b.mover_bb(), square_index(m.end_piece.pos))
    &&& (m.captured_piece matches Some(c) ==> {
        &&& c.pos == m.end_piece.pos
        &&& b.opponent_pieces().contains(c)
        &&& bit_set(b.opponent_bb(), square_index(m.end_piece.pos))
    })
    &&& (m.captured_piece is None ==> !(occupies(b.opponent_pieces(), m.end_piece.pos) && bit_set(
        b.opponent_bb(),
        square_index(m.end_piece.pos),
    )))
}

/// Every move of `ms` is one the generator can produce for `p`.
pub open spec fn all_generated(b: BoardModel, p: Piece, ms: Seq<Move>) -> bool {
    forall|i: int| 0 <= i < ms.len() ==> generated(b, p, #[trigger] ms[i])
}

/// A move to an on-board square is one the generator can produce.
pub proof fn lemma_move_to_generated(b: BoardModel, p: Piece, pos: (u8, u8))
    requires
        on_board(pos),
    ensures
        b.move_to(p, pos) matches Some(m) ==> generated(b, p, m),
{
    lemma_first_at(b.opponent_pieces(), pos);
}

/// Sliding moves are ones the generator can produce.
pub proof fn lemma_ray_generated(b: BoardModel, p: Piece, dr: int, dc: int, k: int)
    ensures
        all_generated(b, p, b.ray(p, dr, dc, k)),
    decreases 8 - k,
{
    if k < 8 {
        let r = offset(p.pos.0 as int, dr, k);
        let c = offset(p.pos.1 as int, dc, k);
        if in_range(r) && in_range(c) {
            lemma_move_to_generated(b, p, (r as u8, c as u8));
            lemma_ray_generated(b, p, dr, dc, k + 1);
        }
    }
}

/// Jumps are moves the generator can produce.
pub proof fn lemma_jumps_generated(b: BoardModel, p: Piece, kind: Jump, n: int)
    ensures
        all_generated(b, p, b.jumps(p, kind, n)),
    decreases n,
{
    if n > 0 {
        lemma_jumps_generated(b, p, kind, n - 1);
        let d = deltas(kind)[n - 1];
        let r = as_signed(p.pos.0) + d.0;
        let c = as_signed(p.pos.1) + d.1;
        if in_range(r) && in_range(c) {
            lemma_move_to_generated(b, p, (r as u8, c as u8));
        }
    }
}

/// Concatenating moves the generator can produce gives such moves.
pub proof fn lemma_concat_generated(b: BoardModel, p: Piece, x: Seq<Move>, y: Seq<Move>)
    requires
        all_generated(b, p, x),
        all_generated(b, p, y),
    ensures
        all_generated(b, p, x + y),
{
    assert forall|i: int| 0 <= i < (x + y).len() implies generated(b, p, #[trigger] (x + y)[i]) by {
        if i < x.len() {
            assert((x + y)[i] == x[i]);
        } else {
            assert((x + y)[i] == y[i - x.len()]);
        }
    }
}

/// Rook moves are ones the generator can produce.
pub proof fn lemma_rook_generated(b: BoardModel, p: Piece)
    ensures
        all_generated(b, p, b.rook_moves(p)),
{
    lemma_ray_generated(b, p, 0, 1, 1);
    lemma_ray_generated(b, p, 0, -1, 1);
    lemma_ray_generated(b, p, 1, 0, 1);
    lemma_ray_generated(b, p, -1, 0, 1);
    lemma_concat_generated(b, p, b.ray(p, 0, 1, 1), b.ray(p, 0, -1, 1));
    lemma_concat_generated(b, p, b.ray(p, 0, 1, 1) + b.ray(p, 0, -1, 1), b.ray(p, 1, 0, 1));
    lemma_concat_generated(
        b,
        p,
        b.ray(p, 0, 1, 1) + b.ray(p, 0, -1, 1) + b.ray(p, 1, 0, 1),
        b.ray(p, -1, 0, 1),
    );
}

/// Bishop moves are ones the generator can produce.
pub proof fn lemma_bishop_generated(b: BoardModel, p: Piece)
    ensures
        all_generated(b, p, b.bishop_moves(p)),
{
    lemma_ray_generated(b, p, 1, 1, 1);
    lemma_ray_generated(b, p, 1, -1, 1);
    lemma_ray_generated(b, p, -1, 1, 1);
    lemma_ray_generated(b, p, -1, -1, 1);
    lemma_concat_generated(b, p, b.ray(p, 1, 1, 1), b.ray(p, 1, -1, 1));
    lemma_concat_generated(b, p, b.ray(p, 1, 1, 1) + b.ray(p, 1, -1, 1), b.ray(p, -1, 1, 1));
    lemma_concat_generated(
        b,
        p,
        b.ray(p, 1, 1, 1) + b.ray(p, 1, -1, 1) + b.ray(p, -1, 1, 1),
        b.ray(p, -1, -1, 1),
    );
}

/// All moves of a piece are ones the generator can produce for it.
pub proof fn lemma_piece_moves_generated(b: BoardModel, p: Piece)
    ensures
        all_generated(b, p, b.piece_moves(p)),
{
    match p.tp {
        PieceType::Unknown => {},
        PieceType::Pawn => lemma_jumps_generated(b, p, Jump::Pawn, deltas(Jump::Pawn).len() as int),
        PieceType::Knight => lemma_jumps_generated(
            b,
            p,
            Jump::Knight,
            deltas(Jump::Knight).len() as int,
        ),
        PieceType::King => lemma_jumps_generated(b, p, Jump::King, deltas(Jump::King).len() as int),
        PieceType::Bishop => lemma_bishop_generated(b, p),
        PieceType::Rook => lemma_rook_generated(b, p),
        PieceType::Queen => {
            lemma_bishop_generated(b, p);
            lemma_rook_generated(b, p);
            lemma_concat_generated(b, p, b.bishop_moves(p), b.rook_moves(p));
        },
    }
}

/// The legal moves among `ms` are moves of `ms`.
pub proof fn lemma_legal_only_subset(b: BoardModel, ms: Seq<Move>)
    ensures
        forall|i: int|
            0 <= i < b.legal_only(ms).len() ==> ms.contains(#[trigger] b.legal_only(ms)[i])
                && b.legal(b.legal_only(ms)[i]),
    decreases ms.len(),
{
    if ms.len() > 0 {
        lemma_legal_only_subset(b, ms.drop_last());
        let prev = b.legal_only(ms.drop_last());
        assert forall|i: int| 0 <= i < b.legal_only(ms).len() implies ms.contains(
            #[trigger] b.legal_only(ms)[i],
        ) && b.legal(b.legal_only(ms)[i]) by {
            if i < prev.len() {
                assert(b.legal_only(ms)[i] == prev[i]);
                assert(ms.drop_last().contains(prev[i]));
                let k = choose|k: int| 0 <= k < ms.drop_last().len() && ms.drop_last()[k] == prev[i];
                assert(ms[k] == prev[i]);
            } else {
                assert(ms[ms.len() - 1] == b.legal_only(ms)[i]);
            }
        }
    }
}

/// A move of one of the pieces of `ps` is among the moves of `ps`.
pub proof fn lemma_all_moves_contains(b: BoardModel, ps: Seq<Piece>, i: int, m: Move)
    requires
        0 <= i < ps.len(),
        b.piece_moves(ps[i]).contains(m),
    ensures
        b.moves_of(ps).contains(m),
    decreases ps.len(),
{
    let prev = b.moves_of(ps.drop_last());
    let last = b.piece_moves(ps.last());
    if i < ps.len() - 1 {
        assert(ps.drop_last()[i] == ps[i]);
        lemma_all_moves_contains(b, ps.drop_last(), i, m);
        let k = choose|k: int| 0 <= k < prev.len() && prev[k] == m;
        assert(b.moves_of(ps)[k] == m);
    } else {
        let k = choose|k: int| 0 <= k < last.len() && last[k] == m;
        assert(b.moves_of(ps)[prev.len() + k] == m);
    }
}

/// On a board where every piece has a kind, legal-move generation can run.
pub proof fn lemma_typed_legal_moves_defined(b: BoardModel)
    requires
        b.typed(),
    ensures
        b.legal_moves_defined(),
{
    lemma_typed_checks_defined(b, b.all_moves());
}

/// When every piece of the other side has a kind, every move can be checked for
/// leaving a king to be taken.
pub proof fn lemma_typed_checks_defined(b: BoardModel, ms: Seq<Move>)
    requires
        typed(b.opponent_pieces()),
    ensures
        b.checks_defined(ms),
{
    assert forall|i: int| 0 <= i < ms.len() && !b.self_capture(#[trigger] ms[i]) implies b.check_defined(
        ms[i],
    ) by {
        if let Some(c) = ms[i].captured_piece {
            crate::board::lemma_remove_keeps(b.opponent_pieces(), c, Color::White);
        }
    }
}

impl Board {
    /// The move of `p` to `pos` for the side to play (a helper for moves that are
    /// neither promotions nor castling).
    pub(crate) fn get_move(&self, p: Piece, pos: (u8, u8)) -> (r: Option<Move>)
        requires
            on_board(pos),
        ensures
            r == self@.move_to(p, pos),
    {
        let (mover_bb, opponent_bb) = self.get_bitboards();
        let (_, opponent) = self.get_pieces();
        let end = Piece { tp: p.tp, pos: pos, col: p.col };
        if mover_bb.get(pos) {
            None
        } else if opponent_bb.get(pos) {
            Some(Move { start_piece: p, end_piece: end, captured_piece: find_at(opponent, pos) })
        } else {
            Some(Move { start_piece: p, end_piece: end, captured_piece: None })
        }
    }

    /// The moves of `p` sliding in direction (dr, dc).
    fn ray_moves(&self, p: Piece, dr: i8, dc: i8) -> (r: Vec<Move>)
        requires
            on_board(p.pos),
            -1 <= dr <= 1,
            -1 <= dc <= 1,
        ensures
            r@ == self@.ray(p, dr as int, dc as int, 1),
    {
        let mut res: Vec<Move> = Vec::new();
        let mut k: i16 = 1;
        loop
            invariant_except_break
                self@.ray(p, dr as int, dc as int, 1) == res@ + self@.ray(p, dr as int, dc as int, k as int),
            invariant
                1 <= k <= 8,
                on_board(p.pos),
                -1 <= dr <= 1,
                -1 <= dc <= 1,
            ensures
                self@.ray(p, dr as int, dc as int, 1) == res@,
            decreases 8 - k,
        {
            if k >= 8 {
                assert(res@ + Seq::<Move>::empty() == res@);
                break;
            }
            let r: i16 = if dr > 0 {
                p.pos.0 as i16 + k
            } else if dr < 0 {
                p.pos.0 as i16 - k
            } else {
                p.pos.0 as i16
            };
            let c: i16 = if dc > 0 {
                p.pos.1 as i16 + k
            } else if dc < 0 {
                p.pos.1 as i16 - k
            } else {
                p.pos.1 as i16
            };
            if r < 0 || r >= 8 || c < 0 || c >= 8 {
                assert(res@ + Seq::<Move>::empty() == res@);
                break;
            }
            match self.get_move(p, (r as u8, c as u8)) {
                None => {
                    assert(res@ + Seq::<Move>::empty() == res@);
                    break;
                },
                Some(m) => {
                    let ghost old_res = res@;
                    res.push(m);
                    if m.captured_piece.is_some() {
                        assert(old_res + seq![m] == res@);
                        break;
                    }
                    assert(old_res + (seq![m] + self@.ray(p, dr as int, dc as int, k + 1)) == res@
                        + self@.ray(p, dr as int, dc as int, k + 1));
                },
            }
            k = k + 1;
        }
        res
    }

    /// The rook moves of `p`.
    pub fn get_rook_moves(&self, p: Piece) -> (r: Vec<Move>)
        requires
            on_board(p.pos),
        ensures
            r@ == self@.rook_moves(p),
    {
        let mut res = self.ray_moves(p, 0, 1);
        let mut a = self.ray_moves(p, 0, -1);
        let mut b = self.ray_moves(p, 1, 0);
        let mut c = self.ray_moves(p, -1, 0);
        res.append(&mut a);
        res.append(&mut b);
        res.append(&mut c);
        res
    }

    /// The bishop moves of `p`.
    pub fn get_bishop_moves(&self, p: Piece) -> (r: Vec<Move>)
        requires
            on_board(p.pos),
        ensures
            r@ == self@.bishop_moves(p),
    {
        let mut res = self.ray_moves(p, 1, 1);
        let mut a = self.ray_moves(p, 1, -1);
        let mut b = self.ray_moves(p, -1, 1);
        let mut c = self.ray_moves(p, -1, -1);
        res.append(&mut a);
        res.append(&mut b);
        res.append(&mut c);
        res
    }

    /// The move of `p` by delta (dr, dc), as its kind allows.
    fn jump_by(&self, p: Piece, kind: Jump, dr: i8, dc: i8) -> (r: Option<Move>)
        requires
            -2 <= dr <= 2,
            -2 <= dc <= 2,
            !delta_overflows(kind, p, (dr as int, dc as int)),
        ensures
            r == self@.jump_at(p, kind, (dr as int, dc as int)),
    {
        let adr: i8 = if dr < 0 {
            -dr
        } else {
            dr
        };
        let adc: i8 = if dc < 0 {
            -dc
        } else {
            dc
        };
        let allowed = match kind {
            Jump::King => true,
            Jump::Knight => adr + adc == 3,
            Jump::Pawn => (if p.col == Color::White {
                dr > 0
            } else {
                dr < 0
            }) && (adr != 2 || p.pos.0 == 1 || p.pos.0 == 6) && adr + adc < 3,
        };
        if !allowed {
            return None;
        }
        let r0: i16 = if p.pos.0 < 128 {
            p.pos.0 as i16
        } else {
            p.pos.0 as i16 - 256
        };
        let c0: i16 = if p.pos.1 < 128 {
            p.pos.1 as i16
        } else {
            p.pos.1 as i16 - 256
        };
        let r: i16 = r0 + dr as i16;
        let c: i16 = c0 + dc as i16;
        if r < 0 || r >= 8 || c < 0 || c >= 8 {
            return None;
        }
        match self.get_move(p, (r as u8, c as u8)) {
            Some(m) => match kind {
                Jump::Pawn => {
                    let dr_moved: i16 = m.end_piece.pos.0 as i16 - m.start_piece.pos.0 as i16;
                    let dc_moved: i16 = m.end_piece.pos.1 as i16 - m.start_piece.pos.1 as i16;
                    let diagonal = (dr_moved == 1 || dr_moved == -1) && (dc_moved == 1 || dc_moved
                        == -1);
                    if diagonal && m.captured_piece.is_none() {
                        None
                    } else {
                        Some(m)
                    }
                },
                _ => Some(m),
            },
            None => None,
        }
    }

    /// The moves of `p` over the delta grid of its kind, in grid order.
    fn jump_moves(&self, p: Piece, kind: Jump) -> (r: Vec<Move>)
        requires
            !jump_overflows(kind, p),
        ensures
            r@ == self@.jump_moves(p, kind),
    {
        let (lo_r, n_r, lo_c, n_c): (i8, i8, i8, i8) = match kind {
            Jump::King => (-1, 3, -1, 3),
            Jump::Knight => (-2, 5, -2, 5),
            Jump::Pawn => (-2, 5, -1, 3),
        };
        let n: i8 = n_r * n_c;
        assert(deltas(kind) == grid(lo_r as int, n_r as int, lo_c as int, n_c as int));
        assert(deltas(kind).len() == n);
        let mut res: Vec<Move> = Vec::new();
        let mut i: i8 = 0;
        while i < n
            invariant
                0 <= i <= n,
                !jump_overflows(kind, p),
                n == n_r * n_c,
                n_r == 3 || n_r == 5,
                n_c == 3 || n_c == 5,
                lo_r == -1 || lo_r == -2,
                lo_c == -1 || lo_c == -2,
                lo_r + n_r - 1 <= 2,
                lo_c + n_c - 1 <= 2,
                deltas(kind) == grid(lo_r as int, n_r as int, lo_c as int, n_c as int),
                res@ == self@.jumps(p, kind, i as int),
            decreases n - i,
        {
            let dr: i8 = lo_r + i / n_c;
            let dc: i8 = lo_c + i % n_c;
            assert(i / n_c < n_r) by (nonlinear_arith)
                requires
                    0 <= i < n_r * n_c,
                    n_c > 0,
            ;
            assert(deltas(kind)[i as int] == (dr as int, dc as int));
            assert(!delta_overflows(kind, p, deltas(kind)[i as int]));
            match self.jump_by(p, kind, dr, dc) {
                Some(m) => {
                    res.push(m);
                },
                None => {},
            }
            i = i + 1;
        }
        res
    }

    /// The king moves of `p`.
    pub fn get_king_moves(&self, p: Piece) -> (r: Vec<Move>)
        requires
            !jump_overflows(Jump::King, p),
        ensures
            r@ == self@.jump_moves(p, Jump::King),
    {
        self.jump_moves(p, Jump::King)
    }

    /// The knight moves of `p`.
    pub fn get_knight_moves(&self, p: Piece) -> (r: Vec<Move>)
        requires
            !jump_overflows(Jump::Knight, p),
        ensures
            r@ == self@.jump_moves(p, Jump::Knight),
    {
        self.jump_moves(p, Jump::Knight)
    }

    /// The pawn moves of `p` (no promotions, no en passant).
    pub fn get_pawn_moves(&self, p: Piece) -> (r: Vec<Move>)
        requires
            !jump_overflows(Jump::Pawn, p),
        ensures
            r@ == self@.jump_moves(p, Jump::Pawn),
    {
        self.jump_moves(p, Jump::Pawn)
    }

    /// All moves of `p` by its kind.
    pub fn get_all_moves_for_piece(&self, p: Piece) -> (r: Vec<Move>)
        requires
            moves_defined(p),
        ensures
            r@ == self@.piece_moves(p),
    {
        match p.tp {
            PieceType::Pawn => self.get_pawn_moves(p),
            PieceType::Knight => self.get_knight_moves(p),
            PieceType::Bishop => self.get_bishop_moves(p),
            PieceType::Rook => self.get_rook_moves(p),
            PieceType::Queen => {
                let mut res = self.get_bishop_moves(p);
                let mut rook = self.get_rook_moves(p);
                res.append(&mut rook);
                res
            },
            PieceType::King => self.get_king_moves(p),
            PieceType::Unknown => Vec::new(),
        }
    }

    /// All moves of the side to play, legal or not.
    pub(crate) fn get_all_moves(&self) -> (r: Vec<Move>)
        requires
            self@.wf(),
            typed(self@.mover_pieces()),
        ensures
            r@ == self@.all_moves(),
    {
        let (pieces, _) = self.get_pieces();
        let mut res: Vec<Move> = Vec::new();
        let mut i: usize = 0;
        while i < pieces.len()
            invariant
                i <= pieces.len(),
                pieces@ == self@.mover_pieces(),
                self@.wf(),
                typed(self@.mover_pieces()),
                res@ == self@.moves_of(pieces@.take(i as int)),
            decreases pieces.len() - i,
        {
            assert(pieces@.take(i + 1).drop_last() == pieces@.take(i as int));
            assert(pieces@.take(i + 1).last() == pieces@[i as int]);
            assert(on_board(pieces@[i as int].pos));
            assert(pieces@[i as int].tp != PieceType::Unknown);
            proof {
                lemma_on_board_defined(pieces@[i as int]);
            }
            let mut ms = self.get_all_moves_for_piece(pieces[i]);
            res.append(&mut ms);
            i = i + 1;
        }
        assert(pieces@.take(pieces.len() as int) == pieces@);
        res
    }

    /// Whether `m` takes a piece on a square of the side to play.
    pub(crate) fn is_self_capture(&self, m: Move) -> (r: bool)
        requires
            m.captured_piece matches Some(c) ==> on_board(c.pos),
        ensures
            r == self@.self_capture(m),
    {
        match m.captured_piece {
            Some(c) => {
                let (mover_bb, _) = self.get_bitboards();
                mover_bb.get(c.pos)
            },
            None => false,
        }
    }

    /// Whether, after `m`, some move of the other side would take a king.
    pub(crate) fn is_self_check(&self, m: Move) -> (r: bool)
        requires
            self@.wf(),
            self@.mover_pieces().contains(m.start_piece),
            move_on_board(m),
            self@.check_defined(m),
        ensures
            r == self@.self_check(m),
    {
        let mut c = self.duplicate();
        c.play_unchecked(m);
        let ms = c.get_all_moves();
        let mut i: usize = 0;
        while i < ms.len()
            invariant
                i <= ms.len(),
                ms@ == self@.play(m).all_moves(),
                forall|k: int| 0 <= k < i ==> !takes_king(#[trigger] ms@[k]),
            decreases ms.len() - i,
        {
            let hit = match ms[i].captured_piece {
                Some(x) => x.tp == PieceType::King,
                None => false,
            };
            if hit {
                assert(takes_king(ms@[i as int]));
                return true;
            }
            i = i + 1;
        }
        false
    }

    /// Whether the destination of `m`, or the square of the piece it names as
    /// taken, is off the board.
    pub(crate) fn is_out_of_bounds(&self, m: Move) -> (r: bool)
        ensures
            r == out_of_bounds(m),
    {
        let end = m.end_piece.pos;
        if !(end.0 < 8 && end.1 < 8) {
            return true;
        }
        match m.captured_piece {
            Some(c) => !(c.pos.0 < 8 && c.pos.1 < 8),
            None => false,
        }
    }

    /// Whether `m` names a captured piece on a square no side occupies.
    pub(crate) fn is_capturing_empty_square(&self, m: Move) -> (r: bool)
        requires
            m.captured_piece matches Some(c) ==> on_board(c.pos),
        ensures
            r == self@.capturing_empty_square(m),
    {
        match m.captured_piece {
            Some(c) => {
                let (white_bb, black_bb) = if self.is_white_to_play() {
                    self.get_bitboards()
                } else {
                    let (b, w) = self.get_bitboards();
                    (w, b)
                };
                let all = white_bb.combine(black_bb);
                !all.get(c.pos)
            },
            None => false,
        }
    }

    /// The legal moves of `p`, a piece of the side to play.
    pub(crate) fn get_legal_moves_for_piece(&self, p: Piece) -> (r: Vec<Move>)
        requires
            self@.wf(),
            self@.mover_pieces().contains(p),
            p.tp != PieceType::Unknown,
            self@.checks_defined(self@.piece_moves(p)),
        ensures
            r@ == self@.legal_only(self@.piece_moves(p)),
    {
        proof {
            let k = choose|k: int|
                0 <= k < self@.mover_pieces().len() && self@.mover_pieces()[k] == p;
            assert(on_board(self@.mover_pieces()[k].pos));
            lemma_piece_moves_generated(self@, p);
            lemma_on_board_defined(p);
        }
        let ms = self.get_all_moves_for_piece(p);
        let mut res: Vec<Move> = Vec::new();
        let mut i: usize = 0;
        while i < ms.len()
            invariant
                i <= ms.len(),
                ms@ == self@.piece_moves(p),
                all_generated(self@, p, ms@),
                on_board(p.pos),
                self@.wf(),
                self@.checks_defined(ms@),
                self@.mover_pieces().contains(p),
                res@ == self@.legal_only(ms@.take(i as int)),
            decreases ms.len() - i,
        {
            assert(ms@.take(i + 1).drop_last() == ms@.take(i as int));
            assert(ms@.take(i + 1).last() == ms@[i as int]);
            let m = ms[i];
            assert(generated(self@, p, ms@[i as int]));
            if !self.is_self_capture(m) && !self.is_self_check(m) {
                res.push(m);
            }
            i = i + 1;
        }
        assert(ms@.take(ms.len() as int) == ms@);
        res
    }

    /// The legal moves of the side to play: for each of its pieces, the moves
    /// that take no piece of its own and leave no king of its own to be taken.
    pub fn get_legal_moves(&self) -> (r: Vec<Move>)
        requires
            self@.wf(),
            self@.legal_moves_defined(),
        ensures
            r@ == self@.legal_moves(),
    {
        let (pieces, _) = self.get_pieces();
        let mut res: Vec<Move> = Vec::new();
        let mut i: usize = 0;
        while i < pieces.len()
            invariant
                i <= pieces.len(),
                pieces@ == self@.mover_pieces(),
                self@.wf(),
                typed(self@.mover_pieces()),
                self@.checks_defined(self@.all_moves()),
                res@ == self@.legal_of(pieces@.take(i as int)),
            decreases pieces.len() - i,
        {
            assert(pieces@.take(i + 1).drop_last() == pieces@.take(i as int));
            assert(pieces@.take(i + 1).last() == pieces@[i as int]);
            assert(pieces@.contains(pieces@[i as int]));
            assert(pieces@[i as int].tp != PieceType::Unknown);
            proof {
                let pm = self@.piece_moves(pieces@[i as int]);
                assert forall|j: int|
                    0 <= j < pm.len() && !self@.self_capture(#[trigger] pm[j]) implies self@.check_defined(
                    pm[j],
                ) by {
                    assert(pm.contains(pm[j]));
                    lemma_all_moves_contains(self@, pieces@, i as int, pm[j]);
                    let k = choose|k: int| 0 <= k < self@.all_moves().len() && self@.all_moves()[k] == pm[j];
                    assert(!self@.self_capture(self@.all_moves()[k]));
                }
            }
            let mut ms = self.get_legal_moves_for_piece(pieces[i]);
            res.append(&mut ms);
            i = i + 1;
        }
        assert(pieces@.take(pieces.len() as int) == pieces@);
        res
    }

    /// Plays `m` if it passes the checks; otherwise answers the first check it
    /// fails and leaves the board unchanged.
    pub fn play_move(&mut self, m: Move) -> (r: Result<(), MoveError>)
        requires
            old(self)@.wf(),
            !out_of_bounds(m) && !old(self)@.self_capture(m) && old(self)@.mover_pieces().contains(
                m.start_piece,
            ) ==> old(self)@.check_defined(m),
        ensures
            r == old(self)@.move_outcome(m),
            r is Ok ==> final(self)@ == old(self)@.play(m),
            r is Err ==> final(self)@ == old(self)@,
            final(self)@.wf(),
            r is Ok && old(self)@.typed() ==> final(self)@.typed() && final(self)@.legal_moves_defined(),
            r is Ok && old(self)@.consistent() && old(self)@.fair(m) ==> final(self)@.consistent(),
            r is Ok && old(self)@.sound() && old(self)@.fair(m) ==> final(self)@.sound(),
    {
        if self.is_out_of_bounds(m) {
            return Err(MoveError::OutOfBounds);
        }
        if self.is_self_capture(m) {
            return Err(MoveError::SelfCapture);
        }
        let has_start = {
            let (pieces, _) = self.get_pieces();
            contains_piece(pieces, m.start_piece)
        };
        if !has_start {
            return Err(MoveError::NoStartingPiece);
        }
        proof {
            let s = self@.mover_pieces();
            let k = choose|k: int| 0 <= k < s.len() && s[k] == m.start_piece;
            assert(on_board(s[k].pos));
        }
        if self.is_self_check(m) {
            return Err(MoveError::SelfCheck);
        }
        if self.is_capturing_empty_square(m) {
            return Err(MoveError::CapturingEmptySquare);
        }
        proof {
            if self@.typed() {
                lemma_play_typed(self@, m);
                lemma_typed_legal_moves_defined(self@.play(m));
            }
            if self@.consistent() && self@.fair(m) {
                lemma_play_consistent(self@, m);
            }
        }
        self.play_unchecked(m);
        Ok(())
    }
}

} // verus!
