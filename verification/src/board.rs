//! The board: each side's pieces, each side's occupied squares as a bitboard,
//! and the moves played so far. Playing and undoing moves.
use vstd::prelude::*;
use crate::bitboard::{
    Bitboard, bit_set, lemma_bit_of_clear, lemma_bit_of_set, lemma_bit_of_zero,
    lemma_square_index_injective, on_board, single, square_index,
};
use crate::piece::{Color, Move, Piece, PieceType};
use crate::pieces::{
    contains_piece, copy_pieces, insert_into, insert_piece, lemma_insert_piece, lemma_remove_piece,
    occupies, remove_from, remove_piece, same_pieces,
};

verus! {

/// The abstract state of a board.
pub ghost struct BoardModel {
    pub white: Seq<Piece>,
    pub black: Seq<Piece>,
    pub white_bb: u64,
    pub black_bb: u64,
    pub moves: Seq<Move>,
}

/// A side is well formed: no piece twice, every piece on the board, and every
/// square of its bitboard holds one of its pieces.
pub open spec fn side_wf(s: Seq<Piece>, bb: u64) -> bool {
    &&& s.no_duplicates()
    &&& forall|i: int| 0 <= i < s.len() ==> on_board(#[trigger] s[i].pos)
    &&& forall|pos: (u8, u8)|
        on_board(pos) && #[trigger] bit_set(bb, square_index(pos)) ==> occupies(s, pos)
}

/// The bitboard of a side is exactly its set of squares, one piece a square.
pub open spec fn side_exact(s: Seq<Piece>, bb: u64) -> bool {
    &&& forall|pos: (u8, u8)|
        on_board(pos) ==> (#[trigger] bit_set(bb, square_index(pos)) <==> occupies(s, pos))
    &&& forall|x: Piece, y: Piece|
        #[trigger] s.contains(x) && #[trigger] s.contains(y) && x.pos == y.pos ==> x == y
}

/// Every piece of `s` has a kind.
pub open spec fn typed(s: Seq<Piece>) -> bool {
    forall|i: int| 0 <= i < s.len() ==> (#[trigger] s[i]).tp != PieceType::Unknown
}

/// Every piece of `s` belongs to side `c`.
pub open spec fn colored(s: Seq<Piece>, c: Color) -> bool {
    forall|i: int| 0 <= i < s.len() ==> (#[trigger] s[i]).col == c
}

/// All squares a move names are on the board.
pub open spec fn move_on_board(m: Move) -> bool {
    &&& on_board(m.start_piece.pos)
    &&& on_board(m.end_piece.pos)
    &&& (m.captured_piece matches Some(c) ==> on_board(c.pos))
}

/// The piece `m` leaves on its destination square: the moving piece, moved.
pub open spec fn arrived(m: Move) -> Piece {
    Piece { tp: m.start_piece.tp, pos: m.end_piece.pos, col: m.start_piece.col }
}

impl BoardModel {
    /// The empty board with White to play.
    pub open spec fn empty() -> BoardModel {
        BoardModel {
            white: Seq::empty(),
            black: Seq::empty(),
            white_bb: 0,
            black_bb: 0,
            moves: Seq::empty(),
        }
    }

    /// White plays when an even number of moves has been played.
    pub open spec fn white_to_play(self) -> bool {
        self.moves.len() % 2 == 0
    }

    /// The side to play.
    pub open spec fn player(self) -> Color {
        if self.white_to_play() {
            Color::White
        } else {
            Color::Black
        }
    }

    /// The pieces of the side to play.
    pub open spec fn mover_pieces(self) -> Seq<Piece> {
        if self.white_to_play() {
            self.white
        } else {
            self.black
        }
    }

    /// The pieces of the other side.
    pub open spec fn opponent_pieces(self) -> Seq<Piece> {
        if self.white_to_play() {
            self.black
        } else {
            self.white
        }
    }

    /// The squares of the side to play.
    pub open spec fn mover_bb(self) -> u64 {
        if self.white_to_play() {
            self.white_bb
        } else {
            self.black_bb
        }
    }

    /// The squares of the other side.
    pub open spec fn opponent_bb(self) -> u64 {
        if self.white_to_play() {
            self.black_bb
        } else {
            self.white_bb
        }
    }

    /// A board whose sides are given from the point of view of this board's player.
    pub open spec fn rebuilt(
        self,
        mover: Seq<Piece>,
        opponent: Seq<Piece>,
        mover_bb: u64,
        opponent_bb: u64,
        moves: Seq<Move>,
    ) -> BoardModel {
        if self.white_to_play() {
            BoardModel { white: mover, black: opponent, white_bb: mover_bb, black_bb: opponent_bb, moves }
        } else {
            BoardModel { white: opponent, black: mover, white_bb: opponent_bb, black_bb: mover_bb, moves }
        }
    }

    /// The board is well formed.
    pub open spec fn wf(self) -> bool {
        &&& side_wf(self.white, self.white_bb)
        &&& side_wf(self.black, self.black_bb)
        &&& forall|k: int| 0 <= k < self.moves.len() ==> move_on_board(#[trigger] self.moves[k])
    }

    /// Each side's bitboard is exactly its squares, one piece a square.
    pub open spec fn exact(self) -> bool {
        &&& side_exact(self.white, self.white_bb)
        &&& side_exact(self.black, self.black_bb)
    }

    /// Every piece on the board has a kind.
    pub open spec fn typed(self) -> bool {
        typed(self.white) && typed(self.black)
    }

    /// No square holds a piece of each side.
    pub open spec fn disjoint(self) -> bool {
        forall|pos: (u8, u8)|
            on_board(pos) ==> !(#[trigger] occupies(self.white, pos) && occupies(self.black, pos))
    }

    /// The board is consistent: well formed, each bitboard exactly its side's
    /// squares with one piece a square, every piece of its side's color, and no
    /// square held by both sides.
    pub open spec fn consistent(self) -> bool {
        &&& self.wf()
        &&& self.exact()
        &&& colored(self.white, Color::White)
        &&& colored(self.black, Color::Black)
        &&& self.disjoint()
    }

    /// The board is sound: consistent, and every piece has a kind.
    pub open spec fn sound(self) -> bool {
        &&& self.consistent()
        &&& self.typed()
    }

    /// `m` goes to a square its side does not hold (or stays where it is, or lands
    /// on a piece of its side equal to the piece it leaves there), and takes the
    /// other side's piece standing there, if there is one.
    pub open spec fn fair(self, m: Move) -> bool {
        &&& (!occupies(self.mover_pieces(), m.end_piece.pos) || m.end_piece.pos
            == m.start_piece.pos || self.mover_pieces().contains(arrived(m)))
        &&& (occupies(self.opponent_pieces(), m.end_piece.pos) ==> (m.captured_piece matches Some(
            c,
        ) && self.opponent_pieces().contains(c) && c.pos == m.end_piece.pos))
    }

    /// Two boards hold the same pieces (as sets), the same bitboards and the same moves.
    pub open spec fn same_position(self, other: BoardModel) -> bool {
        &&& self.white.to_set() == other.white.to_set()
        &&& self.black.to_set() == other.black.to_set()
        &&& self.white_bb == other.white_bb
        &&& self.black_bb == other.black_bb
        &&& self.moves == other.moves
    }

    /// The pieces of side `c`.
    pub open spec fn side(self, c: Color) -> Seq<Piece> {
        match c {
            Color::White => self.white,
            Color::Black => self.black,
        }
    }

    /// The board with `p` added to its side.
    pub open spec fn add(self, p: Piece) -> BoardModel {
        match p.col {
            Color::White => BoardModel {
                white: insert_piece(self.white, p),
                white_bb: self.white_bb | single(square_index(p.pos)),
                ..self
            },
            Color::Black => BoardModel {
                black: insert_piece(self.black, p),
                black_bb: self.black_bb | single(square_index(p.pos)),
                ..self
            },
        }
    }

    /// The board after the side to play plays `m`: the moving piece goes to the
    /// destination keeping its kind, the captured piece, if the opponent has it,
    /// leaves the board, and `m` is recorded.
    pub open spec fn play(self, m: Move) -> BoardModel {
        let opp = self.opponent_pieces();
        let (opp2, opp_bb2) = match m.captured_piece {
            Some(c) => if opp.contains(c) {
                (remove_piece(opp, c), self.opponent_bb() & !single(square_index(c.pos)))
            } else {
                (opp, self.opponent_bb())
            },
            None => (opp, self.opponent_bb()),
        };
        let mover2 = insert_piece(remove_piece(self.mover_pieces(), m.start_piece), arrived(m));
        let mover_bb2 = (self.mover_bb() & !single(square_index(m.start_piece.pos))) | single(
            square_index(m.end_piece.pos),
        );
        self.rebuilt(mover2, opp2, mover_bb2, opp_bb2, self.moves.push(m))
    }

    /// The board with its last move taken back, or `None` when there is no last
    /// move or it is the placeholder of an unknown move.
    pub open spec fn undo(self) -> Option<BoardModel> {
        if self.moves.len() == 0 {
            None
        } else if self.moves.last() == Move::placeholder() {
            None
        } else {
            let mv = self.moves.last();
            let b = BoardModel { moves: self.moves.drop_last(), ..self };
            let (opp2, opp_bb2) = match mv.captured_piece {
                Some(c) => (
                    insert_piece(b.opponent_pieces(), c),
                    b.opponent_bb() | single(square_index(c.pos)),
                ),
                None => (b.opponent_pieces(), b.opponent_bb()),
            };
            let mover_bb2 = (b.mover_bb() & !single(square_index(mv.end_piece.pos))) | single(
                square_index(mv.start_piece.pos),
            );
            let mover2 = insert_piece(remove_piece(b.mover_pieces(), mv.end_piece), mv.start_piece);
            Some(b.rebuilt(mover2, opp2, mover_bb2, opp_bb2, b.moves))
        }
    }
}

/// Adding a piece to a side keeps it well formed.
proof fn lemma_side_insert(s: Seq<Piece>, bb: u64, p: Piece)
    requires
        side_wf(s, bb),
        on_board(p.pos),
    ensures
        side_wf(insert_piece(s, p), bb | single(square_index(p.pos))),
{
    lemma_insert_piece(s, p);
    let s2 = insert_piece(s, p);
    assert forall|i: int| 0 <= i < s2.len() implies on_board(#[trigger] s2[i].pos) by {
        assert(s2.contains(s2[i]));
        if s2[i] != p {
            let k = choose|k: int| 0 <= k < s.len() && s[k] == s2[i];
            assert(on_board(s[k].pos));
        }
    }
    assert forall|pos: (u8, u8)|
        on_board(pos) && #[trigger] bit_set(bb | single(square_index(p.pos)), square_index(pos))
        implies occupies(s2, pos) by {
        lemma_square_index_injective(pos, p.pos);
        lemma_bit_of_set(bb, square_index(p.pos), square_index(pos));
        if pos == p.pos {
            assert(s2.contains(p));
            let k = choose|k: int| 0 <= k < s2.len() && s2[k] == p;
            assert(s2[k].pos == pos);
        } else {
            assert(occupies(s, pos));
            let k = choose|k: int| 0 <= k < s.len() && s[k].pos == pos;
            assert(s.contains(s[k]));
            assert(s2.contains(s[k]));
            let j = choose|j: int| 0 <= j < s2.len() && s2[j] == s[k];
            assert(s2[j].pos == pos);
        }
    }
}

/// Removing a piece and clearing its square keeps a side well formed.
proof fn lemma_side_remove(s: Seq<Piece>, bb: u64, p: Piece)
    requires
        side_wf(s, bb),
        on_board(p.pos),
    ensures
        side_wf(remove_piece(s, p), bb & !single(square_index(p.pos))),
        side_wf(s, bb & !single(square_index(p.pos))),
{
    lemma_remove_piece(s, p);
    let s2 = remove_piece(s, p);
    assert forall|i: int| 0 <= i < s2.len() implies on_board(#[trigger] s2[i].pos) by {
        assert(s2.contains(s2[i]));
        assert(s.contains(s2[i]));
        let k = choose|k: int| 0 <= k < s.len() && s[k] == s2[i];
        assert(on_board(s[k].pos));
    }
    assert forall|pos: (u8, u8)|
        on_board(pos) && #[trigger] bit_set(bb & !single(square_index(p.pos)), square_index(pos))
        implies occupies(s, pos) by {
        lemma_square_index_injective(pos, p.pos);
        lemma_bit_of_clear(bb, square_index(p.pos), square_index(pos));
    }
    assert forall|pos: (u8, u8)|
        on_board(pos) && #[trigger] bit_set(bb & !single(square_index(p.pos)), square_index(pos))
        implies occupies(s2, pos) by {
        lemma_square_index_injective(pos, p.pos);
        lemma_bit_of_clear(bb, square_index(p.pos), square_index(pos));
        let k = choose|k: int| 0 <= k < s.len() && s[k].pos == pos;
        assert(s.contains(s[k]));
        assert(s[k] != p);
        assert(s2.contains(s[k]));
        let j = choose|j: int| 0 <= j < s2.len() && s2[j] == s[k];
        assert(s2[j].pos == pos);
    }
}

/// Adding an on-board piece keeps a board well formed.
pub proof fn lemma_add_wf(b: BoardModel, p: Piece)
    requires
        b.wf(),
        on_board(p.pos),
    ensures
        b.add(p).wf(),
{
    lemma_side_insert(b.white, b.white_bb, p);
    lemma_side_insert(b.black, b.black_bb, p);
}

/// Playing a move of a piece the side to play has, to an on-board square,
/// keeps a board well formed.
pub proof fn lemma_play_wf(b: BoardModel, m: Move)
    requires
        b.wf(),
        b.mover_pieces().contains(m.start_piece),
        move_on_board(m),
    ensures
        b.play(m).wf(),
{
    let s = b.mover_pieces();
    let k = choose|k: int| 0 <= k < s.len() && s[k] == m.start_piece;
    assert(on_board(s[k].pos));
    lemma_side_remove(s, b.mover_bb(), m.start_piece);
    lemma_side_insert(
        remove_piece(s, m.start_piece),
        b.mover_bb() & !single(square_index(m.start_piece.pos)),
        arrived(m),
    );
    if let Some(c) = m.captured_piece {
        lemma_side_remove(b.opponent_pieces(), b.opponent_bb(), c);
    }
    let r = b.play(m);
    assert forall|j: int| 0 <= j < r.moves.len() implies move_on_board(#[trigger] r.moves[j]) by {
        if j < b.moves.len() {
            assert(r.moves[j] == b.moves[j]);
        }
    }
}

/// Taking back a move keeps a board well formed.
pub proof fn lemma_undo_wf(b: BoardModel)
    requires
        b.wf(),
        b.undo() is Some,
    ensures
        b.undo().unwrap().wf(),
{
    let mv = b.moves.last();
    assert(move_on_board(b.moves[b.moves.len() - 1]));
    let bb = BoardModel { moves: b.moves.drop_last(), ..b };
    let s = bb.mover_pieces();
    lemma_side_remove(s, bb.mover_bb(), mv.end_piece);
    lemma_side_insert(
        remove_piece(s, mv.end_piece),
        bb.mover_bb() & !single(square_index(mv.end_piece.pos)),
        mv.start_piece,
    );
    if let Some(c) = mv.captured_piece {
        lemma_side_insert(bb.opponent_pieces(), bb.opponent_bb(), c);
    }
    let r = b.undo().unwrap();
    assert forall|j: int| 0 <= j < r.moves.len() implies move_on_board(#[trigger] r.moves[j]) by {
        assert(r.moves[j] == b.moves[j]);
    }
}

/// A side stays exact when its piece `x` becomes `y`, on a square the side does
/// not hold, on its own square, or on a piece of the side equal to `y`.
pub proof fn lemma_side_exact_move(s: Seq<Piece>, bb: u64, x: Piece, y: Piece)
    requires
        side_exact(s, bb),
        s.contains(x),
        on_board(x.pos),
        on_board(y.pos),
        !occupies(s, y.pos) || y.pos == x.pos || s.contains(y),
    ensures
        side_exact(
            insert_piece(remove_piece(s, x), y),
            (bb & !single(square_index(x.pos))) | single(square_index(y.pos)),
        ),
{
    let s1 = remove_piece(s, x);
    let s2 = insert_piece(s1, y);
    let bb2 = (bb & !single(square_index(x.pos))) | single(square_index(y.pos));
    lemma_remove_piece(s, x);
    lemma_insert_piece(s1, y);
    assert forall|pos: (u8, u8)| on_board(pos) implies (#[trigger] bit_set(bb2, square_index(pos))
        <==> occupies(s2, pos)) by {
        lemma_square_index_injective(pos, x.pos);
        lemma_square_index_injective(pos, y.pos);
        lemma_bit_of_clear(bb, square_index(x.pos), square_index(pos));
        lemma_bit_of_set(
            bb & !single(square_index(x.pos)),
            square_index(y.pos),
            square_index(pos),
        );
        if pos == y.pos {
            assert(s2.contains(y));
            let k = choose|k: int| 0 <= k < s2.len() && s2[k] == y;
            assert(s2[k].pos == pos);
        } else if pos == x.pos {
            if occupies(s2, pos) {
                let k = choose|k: int| 0 <= k < s2.len() && s2[k].pos == pos;
                assert(s2.contains(s2[k]));
                assert(s.contains(s2[k]));
            }
        } else {
            if occupies(s, pos) {
                let k = choose|k: int| 0 <= k < s.len() && s[k].pos == pos;
                assert(s.contains(s[k]));
                assert(s2.contains(s[k]));
                let j = choose|j: int| 0 <= j < s2.len() && s2[j] == s[k];
                assert(s2[j].pos == pos);
            }
            if occupies(s2, pos) {
                let k = choose|k: int| 0 <= k < s2.len() && s2[k].pos == pos;
                assert(s2.contains(s2[k]));
                assert(s.contains(s2[k]));
                let j = choose|j: int| 0 <= j < s.len() && s[j] == s2[k];
                assert(s[j].pos == pos);
            }
        }
    }
    assert forall|a: Piece, c: Piece|
        #[trigger] s2.contains(a) && #[trigger] s2.contains(c) && a.pos == c.pos implies a == c by {
        if a != y && c != y {
            assert(s.contains(a) && s.contains(c));
        } else if a == y && c != y {
            assert(s.contains(c) && c != x);
            let k = choose|k: int| 0 <= k < s.len() && s[k] == c;
            assert(s[k].pos == y.pos);
            assert(s.contains(x));
            if s.contains(y) {
                assert(s.contains(c) && s.contains(y));
            }
        } else if c == y && a != y {
            assert(s.contains(a) && a != x);
            let k = choose|k: int| 0 <= k < s.len() && s[k] == a;
            assert(s[k].pos == y.pos);
            if s.contains(y) {
                assert(s.contains(a) && s.contains(y));
            }
        }
    }
}

/// A side stays exact when it loses the piece standing on a square, with that
/// square cleared.
pub proof fn lemma_side_exact_remove(s: Seq<Piece>, bb: u64, c: Piece)
    requires
        side_exact(s, bb),
        s.contains(c),
        on_board(c.pos),
    ensures
        side_exact(remove_piece(s, c), bb & !single(square_index(c.pos))),
{
    let s2 = remove_piece(s, c);
    let bb2 = bb & !single(square_index(c.pos));
    lemma_remove_piece(s, c);
    assert forall|pos: (u8, u8)| on_board(pos) implies (#[trigger] bit_set(bb2, square_index(pos))
        <==> occupies(s2, pos)) by {
        lemma_square_index_injective(pos, c.pos);
        lemma_bit_of_clear(bb, square_index(c.pos), square_index(pos));
        if occupies(s2, pos) {
            let k = choose|k: int| 0 <= k < s2.len() && s2[k].pos == pos;
            assert(s2.contains(s2[k]));
            assert(s.contains(s2[k]));
            let j = choose|j: int| 0 <= j < s.len() && s[j] == s2[k];
            assert(s[j].pos == pos);
        }
        if pos != c.pos && occupies(s, pos) {
            let k = choose|k: int| 0 <= k < s.len() && s[k].pos == pos;
            assert(s.contains(s[k]));
            assert(s2.contains(s[k]));
            let j = choose|j: int| 0 <= j < s2.len() && s2[j] == s[k];
            assert(s2[j].pos == pos);
        }
    }
    assert forall|a: Piece, d: Piece|
        #[trigger] s2.contains(a) && #[trigger] s2.contains(d) && a.pos == d.pos implies a == d by {
        assert(s.contains(a) && s.contains(d));
    }
}

/// Adding a piece on a square its side does not hold yet, or adding a piece the
/// board already has, keeps the bitboards exactly the squares, one piece a square.
pub proof fn lemma_add_exact(b: BoardModel, p: Piece)
    requires
        b.exact(),
        on_board(p.pos),
        !occupies(b.side(p.col), p.pos) || b.side(p.col).contains(p),
    ensures
        b.add(p).exact(),
{
    let (side, bb) = match p.col {
        Color::White => (b.white, b.white_bb),
        Color::Black => (b.black, b.black_bb),
    };
    assert(side_exact(side, bb));
    lemma_insert_piece(side, p);
    let s2 = insert_piece(side, p);
    let bb2 = bb | single(square_index(p.pos));
    assert forall|pos: (u8, u8)| on_board(pos) implies (#[trigger] bit_set(bb2, square_index(pos))
        <==> occupies(s2, pos)) by {
        lemma_square_index_injective(pos, p.pos);
        lemma_bit_of_set(bb, square_index(p.pos), square_index(pos));
        if pos == p.pos {
            assert(s2.contains(p));
            let k = choose|k: int| 0 <= k < s2.len() && s2[k] == p;
            assert(s2[k].pos == pos);
        } else {
            if occupies(side, pos) {
                let k = choose|k: int| 0 <= k < side.len() && side[k].pos == pos;
                assert(side.contains(side[k]));
                assert(s2.contains(side[k]));
                let j = choose|j: int| 0 <= j < s2.len() && s2[j] == side[k];
                assert(s2[j].pos == pos);
            }
            if occupies(s2, pos) {
                let k = choose|k: int| 0 <= k < s2.len() && s2[k].pos == pos;
                assert(s2.contains(s2[k]));
                assert(s2[k] != p);
                assert(side.contains(s2[k]));
                let j = choose|j: int| 0 <= j < side.len() && side[j] == s2[k];
                assert(side[j].pos == pos);
            }
        }
    }
    assert forall|x: Piece, y: Piece|
        #[trigger] s2.contains(x) && #[trigger] s2.contains(y) && x.pos == y.pos implies x == y by {
        if x == p && y != p {
            assert(side.contains(y));
            let k = choose|k: int| 0 <= k < side.len() && side[k] == y;
            assert(side[k].pos == p.pos);
            if !side.contains(p) {
                assert(occupies(side, p.pos));
            }
        } else if y == p && x != p {
            assert(side.contains(x));
            let k = choose|k: int| 0 <= k < side.len() && side[k] == x;
            assert(side[k].pos == p.pos);
            if !side.contains(p) {
                assert(occupies(side, p.pos));
            }
        } else if x != p && y != p {
            assert(side.contains(x) && side.contains(y));
        }
    }
}

/// A piece of `remove_piece(s, x)` or of `insert_piece(s, y)` standing on `pos`
/// is a piece of `s` on `pos`, or `y`.
pub proof fn lemma_occupies_remove_insert(s: Seq<Piece>, x: Piece, y: Piece, pos: (u8, u8))
    ensures
        occupies(remove_piece(s, x), pos) ==> occupies(s, pos),
        occupies(insert_piece(s, y), pos) ==> occupies(s, pos) || y.pos == pos,
{
    lemma_remove_piece(s, x);
    lemma_insert_piece(s, y);
    if occupies(remove_piece(s, x), pos) {
        let r = remove_piece(s, x);
        let k = choose|k: int| 0 <= k < r.len() && r[k].pos == pos;
        assert(r.contains(r[k]));
        assert(s.contains(r[k]));
        let j = choose|j: int| 0 <= j < s.len() && s[j] == r[k];
        assert(s[j].pos == pos);
    }
    if occupies(insert_piece(s, y), pos) {
        let r = insert_piece(s, y);
        let k = choose|k: int| 0 <= k < r.len() && r[k].pos == pos;
        assert(r.contains(r[k]));
        if r[k] != y {
            let j = choose|j: int| 0 <= j < s.len() && s[j] == r[k];
            assert(s[j].pos == pos);
        }
    }
}

/// Removing a piece keeps the kinds and colors of a side.
pub proof fn lemma_remove_keeps(s: Seq<Piece>, x: Piece, c: Color)
    ensures
        typed(s) ==> typed(remove_piece(s, x)),
        colored(s, c) ==> colored(remove_piece(s, x), c),
{
    lemma_remove_piece(s, x);
    let r = remove_piece(s, x);
    assert forall|i: int| 0 <= i < r.len() implies s.contains(#[trigger] r[i]) by {
        assert(r.contains(r[i]));
    }
    if typed(s) {
        assert forall|i: int| 0 <= i < r.len() implies (#[trigger] r[i]).tp != PieceType::Unknown by {
            assert(s.contains(r[i]));
            let j = choose|j: int| 0 <= j < s.len() && s[j] == r[i];
            assert(s[j].tp != PieceType::Unknown);
        }
    }
    if colored(s, c) {
        assert forall|i: int| 0 <= i < r.len() implies (#[trigger] r[i]).col == c by {
            assert(s.contains(r[i]));
            let j = choose|j: int| 0 <= j < s.len() && s[j] == r[i];
            assert(s[j].col == c);
        }
    }
}

/// Inserting a piece of a kind and of a side's color keeps the kinds and colors
/// of that side.
pub proof fn lemma_insert_keeps(s: Seq<Piece>, y: Piece, c: Color)
    ensures
        typed(s) && y.tp != PieceType::Unknown ==> typed(insert_piece(s, y)),
        colored(s, c) && y.col == c ==> colored(insert_piece(s, y), c),
{
    let r = insert_piece(s, y);
    if !s.contains(y) {
        assert forall|i: int| 0 <= i < r.len() && i < s.len() implies r[i] == s[i] by {}
        assert(r[s.len() as int] == y);
    }
}

/// Playing a fair move of a piece the side to play has keeps a board consistent.
pub proof fn lemma_play_consistent(b: BoardModel, m: Move)
    requires
        b.consistent(),
        b.mover_pieces().contains(m.start_piece),
        move_on_board(m),
        b.fair(m),
    ensures
        b.play(m).consistent(),
{
    let s = b.mover_pieces();
    let o = b.opponent_pieces();
    let mc = if b.white_to_play() { Color::White } else { Color::Black };
    let oc = if b.white_to_play() { Color::Black } else { Color::White };
    assert(side_exact(s, b.mover_bb()));
    assert(side_exact(o, b.opponent_bb()));
    lemma_play_wf(b, m);
    let k = choose|k: int| 0 <= k < s.len() && s[k] == m.start_piece;
    assert(s[k].col == mc);
    lemma_side_exact_move(s, b.mover_bb(), m.start_piece, arrived(m));
    lemma_remove_keeps(s, m.start_piece, mc);
    lemma_insert_keeps(remove_piece(s, m.start_piece), arrived(m), mc);
    let s2 = insert_piece(remove_piece(s, m.start_piece), arrived(m));
    let o2 = match m.captured_piece {
        Some(c) => if o.contains(c) {
            remove_piece(o, c)
        } else {
            o
        },
        None => o,
    };
    if let Some(c) = m.captured_piece {
        if o.contains(c) {
            lemma_side_exact_remove(o, b.opponent_bb(), c);
            lemma_remove_keeps(o, c, oc);
            lemma_remove_piece(o, c);
        }
    }
    assert forall|pos: (u8, u8)| on_board(pos) implies !(occupies(s2, pos) && occupies(o2, pos)) by {
        lemma_occupies_remove_insert(s, m.start_piece, arrived(m), pos);
        lemma_occupies_remove_insert(remove_piece(s, m.start_piece), m.start_piece, arrived(m), pos);
        if let Some(c) = m.captured_piece {
            lemma_occupies_remove_insert(o, c, c, pos);
        }
        if occupies(s2, pos) && occupies(o2, pos) {
            if pos == m.end_piece.pos {
                let j = choose|j: int| 0 <= j < o2.len() && o2[j].pos == pos;
                assert(o2.contains(o2[j]));
                assert(o.contains(o2[j]));
                assert(occupies(o, pos)) by {
                    let q = choose|q: int| 0 <= q < o.len() && o[q] == o2[j];
                    assert(o[q].pos == pos);
                }
                let c = m.captured_piece.unwrap();
                assert(o2[j] != c);
            } else {
                assert(occupies(s, pos));
                assert(occupies(o, pos));
            }
        }
    }
    let p = b.play(m);
    if b.white_to_play() {
        assert(p.white == s2 && p.black == o2);
    } else {
        assert(p.black == s2 && p.white == o2);
    }
}

/// The empty board is sound.
pub proof fn lemma_empty_sound()
    ensures
        BoardModel::empty().sound(),
{
    assert forall|pos: (u8, u8)| on_board(pos) implies !bit_set(0, square_index(pos)) by {
        lemma_square_index_injective(pos, pos);
        lemma_bit_of_zero(square_index(pos));
    }
}

/// Playing a move of a piece the side to play has keeps every piece of a kind.
pub proof fn lemma_play_typed(b: BoardModel, m: Move)
    requires
        b.typed(),
        b.mover_pieces().contains(m.start_piece),
    ensures
        b.play(m).typed(),
{
    let s = b.mover_pieces();
    let k = choose|k: int| 0 <= k < s.len() && s[k] == m.start_piece;
    assert(s[k].tp != PieceType::Unknown);
    lemma_remove_keeps(s, m.start_piece, Color::White);
    lemma_insert_keeps(remove_piece(s, m.start_piece), arrived(m), Color::White);
    if let Some(c) = m.captured_piece {
        lemma_remove_keeps(b.opponent_pieces(), c, Color::White);
    }
}

/// Adding a piece on a square no side holds, or adding a piece the board
/// already has, keeps a board consistent, and a piece of a kind keeps it sound.
pub proof fn lemma_add_consistent(b: BoardModel, p: Piece)
    requires
        b.consistent(),
        on_board(p.pos),
        (!occupies(b.white, p.pos) && !occupies(b.black, p.pos)) || b.side(p.col).contains(p),
    ensures
        b.add(p).consistent(),
        b.typed() && p.tp != PieceType::Unknown ==> b.add(p).typed(),
{
    lemma_add_wf(b, p);
    lemma_add_exact(b, p);
    let side = b.side(p.col);
    lemma_insert_keeps(side, p, p.col);
    lemma_insert_piece(side, p);
    let a = b.add(p);
    assert forall|pos: (u8, u8)| on_board(pos) implies !(#[trigger] occupies(a.white, pos) && occupies(
        a.black,
        pos,
    )) by {
        lemma_occupies_remove_insert(side, p, p, pos);
        if side.contains(p) {
            assert(insert_piece(side, p) == side);
        }
    }
}

/// A chess board: the pieces of each side, the squares each side occupies, and
/// the moves played so far.
#[derive(Debug, Clone)]
pub struct Board {
    white_pieces: Vec<Piece>,
    black_pieces: Vec<Piece>,
    white_piece_bitboard: Bitboard,
    black_piece_bitboard: Bitboard,
    played_moves: Vec<Move>,
}

impl View for Board {
    type V = BoardModel;

    closed spec fn view(&self) -> BoardModel {
        BoardModel {
            white: self.white_pieces@,
            black: self.black_pieces@,
            white_bb: self.white_piece_bitboard.0,
            black_bb: self.black_piece_bitboard.0,
            moves: self.played_moves@,
        }
    }
}

/// A copy of a list of moves.
fn copy_moves(v: &Vec<Move>) -> (r: Vec<Move>)
    ensures
        r@ == v@,
{
    let mut r: Vec<Move> = Vec::new();
    let mut i: usize = 0;
    while i < v.len()
        invariant
            i <= v.len(),
            r@ == v@.take(i as int),
        decreases v.len() - i,
    {
        r.push(v[i]);
        i = i + 1;
    }
    assert(v@.take(v.len() as int) == v@);
    r
}

impl Board {
    /// The board with no pieces and no moves played; White to play.
    pub fn empty() -> (r: Board)
        ensures
            r@ == BoardModel::empty(),
            r@.wf(),
            r@.exact(),
            r@.sound(),
    {
        let r = Board {
            white_pieces: Vec::new(),
            black_pieces: Vec::new(),
            white_piece_bitboard: Bitboard(0),
            black_piece_bitboard: Bitboard(0),
            played_moves: Vec::new(),
        };
        proof {
            assert forall|pos: (u8, u8)| on_board(pos) implies !bit_set(0, square_index(pos)) by {
                lemma_square_index_injective(pos, pos);
                lemma_bit_of_zero(square_index(pos));
            }
        }
        r
    }

    /// A copy of the board.
    pub fn duplicate(&self) -> (r: Board)
        ensures
            r@ == self@,
    {
        Board {
            white_pieces: copy_pieces(&self.white_pieces),
            black_pieces: copy_pieces(&self.black_pieces),
            white_piece_bitboard: Bitboard(self.white_piece_bitboard.0),
            black_piece_bitboard: Bitboard(self.black_piece_bitboard.0),
            played_moves: copy_moves(&self.played_moves),
        }
    }

    /// Puts `p` on the board for its side.
    pub fn add_piece(&mut self, p: Piece)
        requires
            on_board(p.pos),
        ensures
            final(self)@ == old(self)@.add(p),
            old(self)@.wf() ==> final(self)@.wf(),
            old(self)@.consistent() && ((!occupies(old(self)@.white, p.pos) && !occupies(
                old(self)@.black,
                p.pos,
            )) || old(self)@.side(p.col).contains(p)) ==> final(self)@.consistent(),
            old(self)@.sound() && p.tp != PieceType::Unknown && ((!occupies(old(self)@.white, p.pos)
                && !occupies(old(self)@.black, p.pos)) || old(self)@.side(p.col).contains(p))
                ==> final(self)@.sound(),
    {
        proof {
            if old(self)@.wf() {
                lemma_add_wf(old(self)@, p);
            }
            if old(self)@.consistent() && ((!occupies(old(self)@.white, p.pos) && !occupies(
                old(self)@.black,
                p.pos,
            )) || old(self)@.side(p.col).contains(p)) {
                lemma_add_consistent(old(self)@, p);
            }
        }
        match p.col {
            Color::White => {
                insert_into(&mut self.white_pieces, p);
                self.white_piece_bitboard.set(p.pos);
            },
            Color::Black => {
                insert_into(&mut self.black_pieces, p);
                self.black_piece_bitboard.set(p.pos);
            },
        }
    }

    /// Records `count` moves whose details are unknown as the moves played so far.
    pub(crate) fn set_unknown_history(&mut self, count: u32)
        requires
            old(self)@.wf(),
        ensures
            final(self)@ == (BoardModel {
                moves: Seq::new(count as nat, |i: int| Move::placeholder()),
                ..old(self)@
            }),
            final(self)@.wf(),
    {
        let mut moves: Vec<Move> = Vec::new();
        let mut i: u32 = 0;
        while i < count
            invariant
                i <= count,
                moves@ == Seq::new(i as nat, |k: int| Move::placeholder()),
            decreases count - i,
        {
            moves.push(Move::unknown_move());
            i = i + 1;
            assert(moves@ =~= Seq::new(i as nat, |k: int| Move::placeholder()));
        }
        self.played_moves = moves;
        proof {
            assert forall|k: int| 0 <= k < self@.moves.len() implies move_on_board(
                #[trigger] self@.moves[k],
            ) by {
                assert(self@.moves[k] == Move::placeholder());
            }
        }
    }

    /// The pieces of White.
    pub fn white_pieces(&self) -> (r: &Vec<Piece>)
        ensures
            r@ == self@.white,
    {
        &self.white_pieces
    }

    /// The pieces of Black.
    pub fn black_pieces(&self) -> (r: &Vec<Piece>)
        ensures
            r@ == self@.black,
    {
        &self.black_pieces
    }

    /// The moves played so far.
    pub fn played_moves(&self) -> (r: &Vec<Move>)
        ensures
            r@ == self@.moves,
    {
        &self.played_moves
    }

    /// The side to play: White after an even number of moves, Black after an odd one.
    pub fn get_curr_player(&self) -> (r: Color)
        ensures
            r == self@.player(),
    {
        if self.played_moves.len() % 2 == 0 {
            Color::White
        } else {
            Color::Black
        }
    }

    /// Whether White is to play.
    pub(crate) fn is_white_to_play(&self) -> (r: bool)
        ensures
            r == self@.white_to_play(),
    {
        match self.get_curr_player() {
            Color::White => true,
            Color::Black => false,
        }
    }

    /// Whether Black is to play.
    pub(crate) fn is_black_to_play(&self) -> (r: bool)
        ensures
            r == !self@.white_to_play(),
    {
        match self.get_curr_player() {
            Color::White => false,
            Color::Black => true,
        }
    }

    /// The bitboards of the side to play and of the other side.
    pub(crate) fn get_bitboards(&self) -> (r: (Bitboard, Bitboard))
        ensures
            r.0.0 == self@.mover_bb(),
            r.1.0 == self@.opponent_bb(),
    {
        if self.is_white_to_play() {
            (self.white_piece_bitboard, self.black_piece_bitboard)
        } else {
            (self.black_piece_bitboard, self.white_piece_bitboard)
        }
    }

    /// The pieces of the side to play and of the other side.
    pub(crate) fn get_pieces(&self) -> (r: (&Vec<Piece>, &Vec<Piece>))
        ensures
            r.0@ == self@.mover_pieces(),
            r.1@ == self@.opponent_pieces(),
    {
        if self.is_white_to_play() {
            (&self.white_pieces, &self.black_pieces)
        } else {
            (&self.black_pieces, &self.white_pieces)
        }
    }

    /// Mutable access to the bitboards of the side to play and of the other side.
    pub(crate) fn get_bitboards_mut(&mut self) -> (r: (&mut Bitboard, &mut Bitboard))
        ensures
            r.0.0 == old(self)@.mover_bb(),
            r.1.0 == old(self)@.opponent_bb(),
            final(self)@ == old(self)@.rebuilt(
                old(self)@.mover_pieces(),
                old(self)@.opponent_pieces(),
                final(r.0).0,
                final(r.1).0,
                old(self)@.moves,
            ),
    {
        if self.is_white_to_play() {
            (&mut self.white_piece_bitboard, &mut self.black_piece_bitboard)
        } else {
            (&mut self.black_piece_bitboard, &mut self.white_piece_bitboard)
        }
    }

    /// Mutable access to the pieces of the side to play and of the other side.
    pub(crate) fn get_pieces_mut(&mut self) -> (r: (&mut Vec<Piece>, &mut Vec<Piece>))
        ensures
            r.0@ == old(self)@.mover_pieces(),
            r.1@ == old(self)@.opponent_pieces(),
            final(self)@ == old(self)@.rebuilt(
                final(r.0)@,
                final(r.1)@,
                old(self)@.mover_bb(),
                old(self)@.opponent_bb(),
                old(self)@.moves,
            ),
    {
        if self.is_white_to_play() {
            (&mut self.white_pieces, &mut self.black_pieces)
        } else {
            (&mut self.black_pieces, &mut self.white_pieces)
        }
    }

    /// Plays `m` for the side to play without checking it.
    pub(crate) fn play_unchecked(&mut self, m: Move)
        requires
            old(self)@.wf(),
            old(self)@.mover_pieces().contains(m.start_piece),
            move_on_board(m),
        ensures
            final(self)@ == old(self)@.play(m),
            final(self)@.wf(),
    {
        proof {
            lemma_play_wf(self@, m);
        }
        let mut captured_found = false;
        {
            let (mover, opponent) = self.get_pieces_mut();
            if let Some(c) = m.captured_piece {
                if contains_piece(opponent, c) {
                    *opponent = remove_from(opponent, c);
                    captured_found = true;
                }
            }
            *mover = remove_from(mover, m.start_piece);
            insert_into(
                mover,
                Piece { tp: m.start_piece.tp, pos: m.end_piece.pos, col: m.start_piece.col },
            );
        }
        {
            let (mover_bb, opponent_bb) = self.get_bitboards_mut();
            if captured_found {
                if let Some(c) = m.captured_piece {
                    opponent_bb.clear(c.pos);
                }
            }
            mover_bb.clear(m.start_piece.pos);
            mover_bb.set(m.end_piece.pos);
        }
        self.played_moves.push(m);
    }

    /// Takes back the last move; `None` when no move was played or the last one
    /// is the placeholder of an unknown move, and then the board is unchanged.
    pub fn undo_last_move(&mut self) -> (r: Option<()>)
        requires
            old(self)@.wf(),
        ensures
            r is Some <==> old(self)@.undo() is Some,
            r is Some ==> final(self)@ == old(self)@.undo().unwrap(),
            r is None ==> final(self)@ == old(self)@,
            final(self)@.wf(),
    {
        let n = self.played_moves.len();
        if n == 0 {
            return None;
        }
        let mv = self.played_moves[n - 1];
        if mv == Move::unknown_move() {
            return None;
        }
        proof {
            lemma_undo_wf(self@);
            assert(move_on_board(self@.moves[n - 1]));
        }
        self.played_moves.pop();
        {
            let (mover, opponent) = self.get_pieces_mut();
            if let Some(c) = mv.captured_piece {
                insert_into(opponent, c);
            }
            *mover = remove_from(mover, mv.end_piece);
            insert_into(mover, mv.start_piece);
        }
        {
            let (mover_bb, opponent_bb) = self.get_bitboards_mut();
            if let Some(c) = mv.captured_piece {
                opponent_bb.set(c.pos);
            }
            mover_bb.clear(mv.end_piece.pos);
            mover_bb.set(mv.start_piece.pos);
        }
        Some(())
    }
}

/// Whether two lists of moves are equal.
fn same_moves(v: &Vec<Move>, w: &Vec<Move>) -> (r: bool)
    ensures
        r == (v@ == w@),
{
    if v.len() != w.len() {
        return false;
    }
    let mut i: usize = 0;
    while i < v.len()
        invariant
            i <= v.len(),
            v.len() == w.len(),
            forall|k: int| 0 <= k < i ==> v@[k] == w@[k],
        decreases v.len() - i,
    {
        if v[i] != w[i] {
            return false;
        }
        i = i + 1;
    }
    assert(v@ =~= w@);
    true
}

impl PartialEq for Board {
    /// Boards that compare equal have played the same moves, so the same side is
    /// to play, and hold the same bitboards.
    fn eq(&self, other: &Board) -> (r: bool)
        ensures
            r ==> self@.moves == other@.moves,
            r ==> self@.player() == other@.player(),
            r ==> self@.white_bb == other@.white_bb && self@.black_bb == other@.black_bb,
            r ==> self@.white.to_set() == other@.white.to_set() && self@.black.to_set()
                == other@.black.to_set(),
            self@ == other@ ==> r,
    {
        same_pieces(&self.white_pieces, &other.white_pieces) && same_pieces(
            &self.black_pieces,
            &other.black_pieces,
        ) && self.white_piece_bitboard.0 == other.white_piece_bitboard.0
            && self.black_piece_bitboard.0 == other.black_piece_bitboard.0 && same_moves(
            &self.played_moves,
            &other.played_moves,
        )
    }
}

impl vstd::std_specs::cmp::PartialEqSpecImpl for Board {
    open spec fn obeys_eq_spec() -> bool {
        true
    }

    /// Boards are equal when they hold the same pieces, whatever their order,
    /// the same bitboards and the same moves.
    open spec fn eq_spec(&self, other: &Board) -> bool {
        self@.same_position(other@)
    }
}

} // verus!
