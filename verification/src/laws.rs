//! What holds of the library across its operations.
use vstd::prelude::*;
use crate::bitboard::{
    bit_set, lemma_bit_of_union, lemma_clear_then_set, lemma_move_there_and_back,
    lemma_square_index_injective, on_board, single, square_index,
};
use crate::board::{
    arrived, lemma_add_exact, lemma_side_exact_move, lemma_side_exact_remove, side_exact, BoardModel,
};
use crate::movegen::{
    abs, as_signed, captures_king, deltas, generated, in_range, lemma_all_moves_contains,
    lemma_legal_only_subset, lemma_piece_moves_generated, offset, Jump,
};
use crate::fen::{
    fen_model, fen_panics, fen_sections, lemma_start_record, parse_unsigned, piece_of, rank_byte,
    rank_width, scan_row, start_position, start_record, Scan,
};
use crate::piece::{Color, Move, Piece, PieceType};
use crate::pieces::{
    first_at, insert_piece, lemma_first_at, lemma_insert_piece, lemma_remove_piece, occupies,
    remove_piece,
};

verus! {

/// A move of the pieces of `ps` is a move of one of them.
proof fn lemma_moves_of_member(b: BoardModel, ps: Seq<Piece>, m: Move)
    requires
        b.moves_of(ps).contains(m),
    ensures
        exists|i: int| 0 <= i < ps.len() && b.piece_moves(#[trigger] ps[i]).contains(m),
    decreases ps.len(),
{
    let prev = b.moves_of(ps.drop_last());
    let last = b.piece_moves(ps.last());
    let k = choose|k: int| 0 <= k < b.moves_of(ps).len() && b.moves_of(ps)[k] == m;
    if k < prev.len() {
        assert(prev[k] == m);
        assert(prev.contains(m));
        lemma_moves_of_member(b, ps.drop_last(), m);
        let i = choose|i: int| 0 <= i < ps.drop_last().len() && b.piece_moves(#[trigger] ps.drop_last()[i]).contains(m);
        assert(ps[i] == ps.drop_last()[i]);
    } else {
        assert(last[k - prev.len()] == m);
        assert(last.contains(m));
        assert(b.piece_moves(ps[ps.len() - 1]).contains(m));
    }
}

/// A legal move of the pieces of `ps` is a legal move of one of them.
proof fn lemma_legal_of_member(b: BoardModel, ps: Seq<Piece>, m: Move)
    requires
        b.legal_of(ps).contains(m),
    ensures
        exists|i: int| 0 <= i < ps.len() && b.piece_moves(#[trigger] ps[i]).contains(m),
        b.legal(m),
    decreases ps.len(),
{
    let prev = b.legal_of(ps.drop_last());
    let last = b.legal_only(b.piece_moves(ps.last()));
    let k = choose|k: int| 0 <= k < b.legal_of(ps).len() && b.legal_of(ps)[k] == m;
    if k < prev.len() {
        assert(prev[k] == m);
        assert(prev.contains(m));
        lemma_legal_of_member(b, ps.drop_last(), m);
        let i = choose|i: int| 0 <= i < ps.drop_last().len() && b.piece_moves(#[trigger] ps.drop_last()[i]).contains(m);
        assert(ps[i] == ps.drop_last()[i]);
    } else {
        assert(last[k - prev.len()] == m);
        lemma_legal_only_subset(b, b.piece_moves(ps.last()));
        assert(b.piece_moves(ps[ps.len() - 1]).contains(m));
    }
}

/// Every move the side to play can make starts from one of its own pieces (one
/// with a kind), lands on the board on a square its side does not hold, keeps the
/// piece's kind and color, and takes only a piece of the other side standing
/// on the destination.
pub proof fn law_moves_are_well_formed(b: BoardModel, m: Move)
    requires
        b.all_moves().contains(m),
    ensures
        b.mover_pieces().contains(m.start_piece),
        m.start_piece.tp != PieceType::Unknown,
        generated(b, m.start_piece, m),
{
    lemma_moves_of_member(b, b.mover_pieces(), m);
    let i = choose|i: int| 0 <= i < b.mover_pieces().len() && b.piece_moves(#[trigger] b.mover_pieces()[i]).contains(m);
    let p = b.mover_pieces()[i];
    lemma_piece_moves_generated(b, p);
    let k = choose|k: int| 0 <= k < b.piece_moves(p).len() && b.piece_moves(p)[k] == m;
    assert(generated(b, p, b.piece_moves(p)[k]));
    assert(b.mover_pieces().contains(p));
}

/// The legal moves are moves of the side to play that neither take one of its
/// own pieces nor leave one of its kings to be taken.
pub proof fn law_legal_moves_are_safe(b: BoardModel, m: Move)
    requires
        b.legal_moves().contains(m),
    ensures
        b.all_moves().contains(m),
        !b.self_capture(m),
        !captures_king(b.play(m).all_moves()),
{
    lemma_legal_of_member(b, b.mover_pieces(), m);
    let i = choose|i: int| 0 <= i < b.mover_pieces().len() && b.piece_moves(#[trigger] b.mover_pieces()[i]).contains(m);
    lemma_all_moves_contains(b, b.mover_pieces(), i, m);
}

/// `play_move` accepts every legal move: it is on the board, takes no piece of
/// its own side, leaves no king of its side to be taken, and a capture names a
/// piece on an occupied square.
pub proof fn law_legal_moves_are_accepted(b: BoardModel, m: Move)
    requires
        b.legal_moves().contains(m),
    ensures
        b.move_outcome(m) == Ok::<(), crate::piece::MoveError>(()),
{
    law_legal_moves_are_safe(b, m);
    law_moves_are_well_formed(b, m);
    if let Some(c) = m.captured_piece {
        lemma_bit_of_union(b.white_bb, b.black_bb, square_index(c.pos));
        lemma_square_index_injective(c.pos, c.pos);
    }
}

/// After a move the other side is to play, and taking a move back gives the
/// turn back.
pub proof fn law_turns_alternate(b: BoardModel, m: Move)
    ensures
        b.play(m).player() != b.player(),
        b.undo() matches Some(u) ==> u.player() != b.player(),
{
}

/// Taking back a move the side to play can make restores the board (the same
/// pieces, bitboards and moves), when the moving piece's square is marked in its
/// side's bitboard and its side holds no piece equal to the moved piece (other
/// than the moving piece itself).
pub proof fn law_undo_restores_play(b: BoardModel, m: Move)
    requires
        b.all_moves().contains(m),
        bit_set(b.mover_bb(), square_index(m.start_piece.pos)),
        !b.mover_pieces().contains(arrived(m)) || arrived(m) == m.start_piece,
        b.wf(),
    ensures
        b.play(m).undo() matches Some(u) && u.same_position(b),
{
    law_moves_are_well_formed(b, m);
    let s = b.mover_pieces();
    let k = choose|k: int| 0 <= k < s.len() && s[k] == m.start_piece;
    assert(on_board(s[k].pos));
    let a = arrived(m);
    assert(a == m.end_piece);
    let p = b.play(m);
    assert(p.moves.last() == m);
    assert(m != Move::placeholder());
    let u = p.undo().unwrap();
    assert(p.moves.drop_last() =~= b.moves);
    // the side that moved
    let w1 = insert_piece(remove_piece(s, m.start_piece), a);
    let w2 = insert_piece(remove_piece(w1, m.end_piece), m.start_piece);
    lemma_remove_piece(s, m.start_piece);
    lemma_insert_piece(remove_piece(s, m.start_piece), a);
    lemma_remove_piece(w1, m.end_piece);
    lemma_insert_piece(remove_piece(w1, m.end_piece), m.start_piece);
    assert(w2.to_set() =~= s.to_set());
    lemma_square_index_injective(m.start_piece.pos, m.end_piece.pos);
    lemma_move_there_and_back(
        b.mover_bb(),
        square_index(m.start_piece.pos),
        square_index(m.end_piece.pos),
    );
    // the other side
    let o = b.opponent_pieces();
    if let Some(c) = m.captured_piece {
        lemma_remove_piece(o, c);
        lemma_insert_piece(remove_piece(o, c), c);
        assert(insert_piece(remove_piece(o, c), c).to_set() =~= o.to_set());
        lemma_clear_then_set(b.opponent_bb(), square_index(c.pos));
    }
}

/// On a board whose bitboards are exactly its squares, one piece a square,
/// taking back any move the side to play can make restores the board.
pub proof fn law_undo_restores_play_exact(b: BoardModel, m: Move)
    requires
        b.all_moves().contains(m),
        b.wf(),
        b.exact(),
    ensures
        b.play(m).undo() matches Some(u) && u.same_position(b),
{
    law_moves_are_well_formed(b, m);
    let s = b.mover_pieces();
    assert(side_exact(s, b.mover_bb()));
    let k = choose|k: int| 0 <= k < s.len() && s[k] == m.start_piece;
    assert(on_board(s[k].pos));
    assert(occupies(s, m.start_piece.pos));
    if s.contains(arrived(m)) {
        let j = choose|j: int| 0 <= j < s.len() && s[j] == arrived(m);
        assert(on_board(s[j].pos));
        assert(occupies(s, m.end_piece.pos));
    }
    law_undo_restores_play(b, m);
}

/// Playing a move the side to play can make keeps a well-formed board's
/// bitboards exactly its squares, one piece a square.
pub proof fn law_play_keeps_exact(b: BoardModel, m: Move)
    requires
        b.all_moves().contains(m),
        b.wf(),
        b.exact(),
    ensures
        b.play(m).exact(),
        b.play(m).wf(),
{
    law_moves_are_well_formed(b, m);
    let s = b.mover_pieces();
    let k = choose|k: int| 0 <= k < s.len() && s[k] == m.start_piece;
    assert(on_board(s[k].pos));
    assert(side_exact(s, b.mover_bb()));
    assert(side_exact(b.opponent_pieces(), b.opponent_bb()));
    lemma_side_exact_move(s, b.mover_bb(), m.start_piece, arrived(m));
    if let Some(c) = m.captured_piece {
        lemma_side_exact_remove(b.opponent_pieces(), b.opponent_bb(), c);
    }
    crate::board::lemma_play_wf(b, m);
}

/// A position read from FEN has White to play exactly when its side-to-move
/// section starts with `w`, unless the full-move number is 0 (then White plays
/// whatever the section says).
pub proof fn law_fen_side_to_move(s: Seq<u8>)
    requires
        fen_model(s) is Some,
    ensures
        ({
            let n = parse_unsigned(fen_sections(s)[5], 4294967295).unwrap();
            let b = fen_model(s).unwrap();
            &&& n >= 1 ==> ((b.player() == Color::White) <==> fen_sections(s)[1][0] == 119)
            &&& n == 0 ==> b.player() == Color::White
        }),
{
}

/// Adding a piece on a square its side does not hold yet, or adding a piece the
/// board already has, keeps the bitboards exactly the squares, one piece a square.
pub proof fn law_add_keeps_exact(b: BoardModel, p: Piece)
    requires
        b.exact(),
        on_board(p.pos),
        !occupies(b.side(p.col), p.pos) || b.side(p.col).contains(p),
    ensures
        b.add(p).exact(),
{
    lemma_add_exact(b, p);
}

/// A legal move among `ms` is among the legal moves of `ms`.
proof fn lemma_legal_only_contains(b: BoardModel, ms: Seq<Move>, m: Move)
    requires
        ms.contains(m),
        b.legal(m),
    ensures
        b.legal_only(ms).contains(m),
    decreases ms.len(),
{
    let prev = b.legal_only(ms.drop_last());
    if ms.last() == m {
        assert(b.legal_only(ms)[prev.len() as int] == m);
    } else {
        let k = choose|k: int| 0 <= k < ms.len() && ms[k] == m;
        assert(k < ms.len() - 1);
        assert(ms.drop_last()[k] == m);
        lemma_legal_only_contains(b, ms.drop_last(), m);
        let j = choose|j: int| 0 <= j < prev.len() && prev[j] == m;
        assert(b.legal_only(ms)[j] == m);
    }
}

/// A legal move of one of the pieces of `ps` is among the legal moves of `ps`.
proof fn lemma_legal_of_contains(b: BoardModel, ps: Seq<Piece>, i: int, m: Move)
    requires
        0 <= i < ps.len(),
        b.piece_moves(ps[i]).contains(m),
        b.legal(m),
    ensures
        b.legal_of(ps).contains(m),
    decreases ps.len(),
{
    let prev = b.legal_of(ps.drop_last());
    let last = b.legal_only(b.piece_moves(ps.last()));
    if i < ps.len() - 1 {
        assert(ps.drop_last()[i] == ps[i]);
        lemma_legal_of_contains(b, ps.drop_last(), i, m);
        let k = choose|k: int| 0 <= k < prev.len() && prev[k] == m;
        assert(b.legal_of(ps)[k] == m);
    } else {
        lemma_legal_only_contains(b, b.piece_moves(ps.last()), m);
        let k = choose|k: int| 0 <= k < last.len() && last[k] == m;
        assert(b.legal_of(ps)[prev.len() + k] == m);
    }
}

/// The legal moves are exactly the moves of the side to play that `play_move`
/// accepts: those that take no piece of their own side and leave no king of
/// their side to be taken.
pub proof fn law_legal_moves_complete(b: BoardModel, m: Move)
    ensures
        b.legal_moves().contains(m) <==> (b.all_moves().contains(m) && b.legal(m)),
        b.legal_moves().contains(m) <==> (b.all_moves().contains(m) && b.move_outcome(m)
            == Ok::<(), crate::piece::MoveError>(())),
{
    if b.legal_moves().contains(m) {
        law_legal_moves_are_safe(b, m);
        law_legal_moves_are_accepted(b, m);
    }
    if b.all_moves().contains(m) {
        law_moves_are_well_formed(b, m);
        lemma_moves_of_member(b, b.mover_pieces(), m);
        let i = choose|i: int|
            0 <= i < b.mover_pieces().len() && b.piece_moves(#[trigger] b.mover_pieces()[i]).contains(m);
        if let Some(c) = m.captured_piece {
            lemma_bit_of_union(b.white_bb, b.black_bb, square_index(c.pos));
            lemma_square_index_injective(c.pos, c.pos);
        }
        if b.legal(m) {
            lemma_legal_of_contains(b, b.mover_pieces(), i, m);
        }
    }
}

/// On a sound board every move the side to play can make is fair: it goes to a
/// square its side does not hold and takes the other side's piece standing there.
pub proof fn law_moves_are_fair(b: BoardModel, m: Move)
    requires
        b.exact(),
        b.all_moves().contains(m),
    ensures
        b.fair(m),
{
    law_moves_are_well_formed(b, m);
    assert(side_exact(b.mover_pieces(), b.mover_bb()));
    assert(side_exact(b.opponent_pieces(), b.opponent_bb()));
}

/// `play_move` keeps a board consistent (bitboards exactly the squares, one
/// piece a square, every piece of its side's color, no square held by both
/// sides) for every move of one of the mover's pieces that goes to a square its
/// side does not hold (or onto a piece of its side equal to the one it leaves
/// there) and takes the other side's piece standing there, if any; in particular
/// for every legal move. Every piece keeps having a kind.
pub proof fn law_play_keeps_consistent(b: BoardModel, m: Move)
    requires
        b.consistent(),
        b.mover_pieces().contains(m.start_piece),
        on_board(m.end_piece.pos),
        m.captured_piece matches Some(c) ==> on_board(c.pos),
        b.fair(m) || b.legal_moves().contains(m),
    ensures
        b.play(m).consistent(),
        b.typed() ==> b.play(m).typed(),
        b.sound() ==> b.play(m).sound(),
{
    let s = b.mover_pieces();
    let k = choose|k: int| 0 <= k < s.len() && s[k] == m.start_piece;
    assert(on_board(s[k].pos));
    if b.legal_moves().contains(m) {
        law_legal_moves_are_safe(b, m);
        law_moves_are_fair(b, m);
    }
    crate::board::lemma_play_consistent(b, m);
    if b.typed() {
        crate::board::lemma_play_typed(b, m);
    }
}

/// Playing a legal move and taking it back restores the board, on a board whose
/// bitboards are exactly its squares: `play_move` accepts the move, and the
/// board after `undo_last_move` has the same pieces, bitboards and moves.
pub proof fn law_undo_restores_legal_move(b: BoardModel, m: Move)
    requires
        b.wf(),
        b.exact(),
        b.legal_moves().contains(m),
    ensures
        b.move_outcome(m) == Ok::<(), crate::piece::MoveError>(()),
        b.play(m).undo() matches Some(u) && u.same_position(b),
{
    law_legal_moves_are_accepted(b, m);
    law_legal_moves_are_safe(b, m);
    law_undo_restores_play_exact(b, m);
}

/// The starting position (the board `Board::default` gives) is the board of the
/// FEN record `rnbqkbnr/pppppppp/8/8/8/8/PPPPPPPP/RNBQKBNR w KQkq - 0 1`, and
/// reading that record does not stop the program.
pub proof fn law_default_is_start_record()
    ensures
        !fen_panics(start_record()),
        fen_model(start_record()) == Some(start_position()),
{
    lemma_start_record();
}

/// The width of a rank grows with each byte.
proof fn lemma_rank_width_grows(row: Seq<u8>, i: int)
    requires
        0 <= i <= row.len(),
    ensures
        0 <= rank_width(row.take(i)) <= rank_width(row),
    decreases row.len(),
{
    if row.len() > 0 {
        if i == row.len() {
            assert(row.take(i) =~= row);
            lemma_rank_width_grows(row.drop_last(), 0);
        } else {
            assert(row.take(i) =~= row.drop_last().take(i));
            lemma_rank_width_grows(row.drop_last(), i);
        }
    } else {
        assert(row.take(i) =~= row);
    }
}

/// Reading a rank of a FEN placement moves along the files as the rank says:
/// a rank that is read ends on the file its width gives (a digit `d` skips `d`
/// files, a letter takes one), each letter's piece stands on the rank at the
/// file the bytes before it cover, and a rank of letters and digits 1 to 8
/// covering at most eight files is always read.
pub proof fn law_fen_rank_files(row: Seq<u8>, rank: int)
    requires
        0 <= rank < 8,
    ensures
        scan_row(row, rank).0 == Scan::Going ==> scan_row(row, rank).1 == rank_width(row),
        scan_row(row, rank).0 == Scan::Going ==> forall|i: int|
            0 <= i < row.len() && (#[trigger] piece_of(row[i])) is Some ==> scan_row(row, rank).2.contains(
                Piece {
                    tp: piece_of(row[i]).unwrap().0,
                    pos: ((7 - rank) as u8, rank_width(row.take(i)) as u8),
                    col: piece_of(row[i]).unwrap().1,
                },
            ),
        (forall|i: int| 0 <= i < row.len() ==> rank_byte(#[trigger] row[i])) && rank_width(row) <= 8
            ==> scan_row(row, rank).0 == Scan::Going,
    decreases row.len(),
{
    if row.len() > 0 {
        let q = row.drop_last();
        law_fen_rank_files(q, rank);
        lemma_rank_width_grows(row, row.len() - 1);
        assert(row.take(row.len() - 1) =~= q);
        let r = scan_row(row, rank);
        let pr = scan_row(q, rank);
        if r.0 == Scan::Going {
            assert(pr.0 == Scan::Going);
            assert forall|i: int|
                0 <= i < row.len() && (#[trigger] piece_of(row[i])) is Some implies r.2.contains(
                Piece {
                    tp: piece_of(row[i]).unwrap().0,
                    pos: ((7 - rank) as u8, rank_width(row.take(i)) as u8),
                    col: piece_of(row[i]).unwrap().1,
                },
            ) by {
                let x = Piece {
                    tp: piece_of(row[i]).unwrap().0,
                    pos: ((7 - rank) as u8, rank_width(row.take(i)) as u8),
                    col: piece_of(row[i]).unwrap().1,
                };
                if i < row.len() - 1 {
                    assert(q[i] == row[i]);
                    assert(row.take(i) =~= q.take(i));
                    assert(pr.2.contains(x));
                    let k = choose|k: int| 0 <= k < pr.2.len() && pr.2[k] == x;
                    assert(r.2[k] == x);
                } else {
                    assert(r.2[r.2.len() - 1] == x);
                }
            }
        }
        if (forall|i: int| 0 <= i < row.len() ==> rank_byte(#[trigger] row[i])) && rank_width(row)
            <= 8 {
            assert forall|i: int| 0 <= i < q.len() implies rank_byte(#[trigger] q[i]) by {
                assert(q[i] == row[i]);
            }
            assert(rank_byte(row[row.len() - 1]));
        }
    }
}

/// A jump of `p` comes from one of the first `n` deltas of its grid.
proof fn lemma_jumps_member(b: BoardModel, p: Piece, kind: Jump, n: int, m: Move)
    requires
        b.jumps(p, kind, n).contains(m),
    ensures
        exists|j: int| 0 <= j < n && #[trigger] b.jump_at(p, kind, deltas(kind)[j]) == Some(m),
    decreases n,
{
    if n > 0 {
        let prev = b.jumps(p, kind, n - 1);
        let k = choose|k: int| 0 <= k < b.jumps(p, kind, n).len() && b.jumps(p, kind, n)[k] == m;
        match b.jump_at(p, kind, deltas(kind)[n - 1]) {
            Some(x) => {
                if k < prev.len() {
                    assert(prev[k] == m);
                    lemma_jumps_member(b, p, kind, n - 1, m);
                } else {
                    assert(x == m);
                }
            },
            None => {
                assert(prev[k] == m);
                lemma_jumps_member(b, p, kind, n - 1, m);
            },
        }
    }
}

/// A jump the grid's `j`-th delta gives is among the jumps over the first `n`
/// deltas when `j < n`.
proof fn lemma_jumps_contains(b: BoardModel, p: Piece, kind: Jump, n: int, j: int, m: Move)
    requires
        0 <= j < n,
        b.jump_at(p, kind, deltas(kind)[j]) == Some(m),
    ensures
        b.jumps(p, kind, n).contains(m),
    decreases n,
{
    let prev = b.jumps(p, kind, n - 1);
    if j == n - 1 {
        assert(b.jumps(p, kind, n)[prev.len() as int] == m);
    } else {
        lemma_jumps_contains(b, p, kind, n - 1, j, m);
        let k = choose|k: int| 0 <= k < prev.len() && prev[k] == m;
        assert(b.jumps(p, kind, n)[k] == m);
    }
}

/// The pawn grid's deltas: rows from -2 to 2, files from -1 to 1.
proof fn lemma_pawn_delta_range(j: int)
    requires
        0 <= j < 15,
    ensures
        -2 <= deltas(Jump::Pawn)[j].0 <= 2,
        -1 <= deltas(Jump::Pawn)[j].1 <= 1,
{
    assert(0 <= j / 3 < 5 && 0 <= j % 3 < 3) by (nonlinear_arith)
        requires
            0 <= j < 15,
    ;
}

/// A pawn on the board moves forward only (up the rows for White, down for
/// Black) by one row, or by two rows straight ahead from the second or seventh
/// row; it moves at most one file aside, and only to take a piece.
pub proof fn law_pawn_moves(b: BoardModel, p: Piece, m: Move)
    requires
        on_board(p.pos),
        p.tp == PieceType::Pawn,
        b.piece_moves(p).contains(m),
    ensures
        m.start_piece == p,
        on_board(m.end_piece.pos),
        ({
            let dr = m.end_piece.pos.0 - p.pos.0;
            let dc = m.end_piece.pos.1 - p.pos.1;
            &&& p.col == Color::White ==> (dr == 1 || dr == 2)
            &&& p.col == Color::Black ==> (dr == -1 || dr == -2)
            &&& abs(dr) == 2 ==> (p.pos.0 == 1 || p.pos.0 == 6) && dc == 0
            &&& -1 <= dc <= 1
            &&& dc != 0 ==> m.captured_piece is Some
        }),
{
    lemma_jumps_member(b, p, Jump::Pawn, 15, m);
    let j = choose|j: int| 0 <= j < 15 && #[trigger] b.jump_at(p, Jump::Pawn, deltas(Jump::Pawn)[j]) == Some(m);
    lemma_pawn_delta_range(j);
    lemma_piece_moves_generated(b, p);
    let k = choose|k: int| 0 <= k < b.piece_moves(p).len() && b.piece_moves(p)[k] == m;
    assert(generated(b, p, b.piece_moves(p)[k]));
}

/// The square `i` steps from `pos` in direction (dr, dc).
pub open spec fn step(pos: (u8, u8), dr: int, dc: int, i: int) -> (u8, u8) {
    (offset(pos.0 as int, dr, i) as u8, offset(pos.1 as int, dc, i) as u8)
}

/// The squares from `lo` steps up to (not including) `j` steps from `pos` in
/// direction (dr, dc) are on the board and hold no piece of either side.
pub open spec fn path_clear(b: BoardModel, pos: (u8, u8), dr: int, dc: int, lo: int, j: int) -> bool {
    forall|i: int|
        lo <= i < j ==> on_board(#[trigger] step(pos, dr, dc, i)) && !occupies(b.white, step(pos, dr, dc, i))
            && !occupies(b.black, step(pos, dr, dc, i))
}

/// `m` slides `p` some steps in direction (dr, dc) over empty squares only.
pub open spec fn slides(b: BoardModel, p: Piece, dr: int, dc: int, m: Move) -> bool {
    exists|j: int| 1 <= j < 8 && #[trigger] step(p.pos, dr, dc, j) == m.end_piece.pos && path_clear(b, p.pos, dr, dc, 1, j)
}

/// A move of a ray from step `k` on lands `j >= k` steps away over empty squares.
proof fn lemma_ray_member(b: BoardModel, p: Piece, dr: int, dc: int, k: int, m: Move)
    requires
        b.exact(),
        b.ray(p, dr, dc, k).contains(m),
    ensures
        exists|j: int| k <= j < 8 && #[trigger] step(p.pos, dr, dc, j) == m.end_piece.pos && path_clear(b, p.pos, dr, dc, k, j),
    decreases 8 - k,
{
    let r = offset(p.pos.0 as int, dr, k);
    let c = offset(p.pos.1 as int, dc, k);
    let pos = (r as u8, c as u8);
    let mv = b.move_to(p, pos).unwrap();
    let rest = b.ray(p, dr, dc, k + 1);
    if m == mv {
        assert(step(p.pos, dr, dc, k) == m.end_piece.pos);
        assert(path_clear(b, p.pos, dr, dc, k, k));
    } else {
        assert(mv.captured_piece is None);
        assert(b.ray(p, dr, dc, k) == seq![mv] + rest);
        let q = choose|q: int| 0 <= q < b.ray(p, dr, dc, k).len() && b.ray(p, dr, dc, k)[q] == m;
        assert(rest[q - 1] == m);
        lemma_ray_member(b, p, dr, dc, k + 1, m);
        let j = choose|j: int| k + 1 <= j < 8 && #[trigger] step(p.pos, dr, dc, j) == m.end_piece.pos && path_clear(b, p.pos, dr, dc, k + 1, j);
        // the square k steps away is empty: the ray went on past it
        lemma_first_at(b.opponent_pieces(), pos);
        assert(side_exact(b.white, b.white_bb) && side_exact(b.black, b.black_bb));
        assert(on_board(pos));
        assert(!occupies(b.white, pos) && !occupies(b.black, pos));
        assert(step(p.pos, dr, dc, k) == pos);
        assert(path_clear(b, p.pos, dr, dc, k, j));
    }
}

/// A move of the ray from the first step in direction (dr, dc) slides there.
proof fn lemma_ray_slides(b: BoardModel, p: Piece, dr: int, dc: int, m: Move)
    requires
        b.exact(),
        b.ray(p, dr, dc, 1).contains(m),
    ensures
        slides(b, p, dr, dc, m),
{
    lemma_ray_member(b, p, dr, dc, 1, m);
}

/// A move among `x + y` is among `x` or among `y`.
proof fn lemma_concat_member(x: Seq<Move>, y: Seq<Move>, m: Move)
    requires
        (x + y).contains(m),
    ensures
        x.contains(m) || y.contains(m),
{
    let k = choose|k: int| 0 <= k < (x + y).len() && (x + y)[k] == m;
    if k < x.len() {
        assert(x[k] == m);
    } else {
        assert(y[k - x.len()] == m);
    }
}

/// Rook moves slide along a rank or a file over empty squares.
proof fn lemma_rook_slides(b: BoardModel, p: Piece, m: Move)
    requires
        b.exact(),
        b.rook_moves(p).contains(m),
    ensures
        slides(b, p, 0, 1, m) || slides(b, p, 0, -1, m) || slides(b, p, 1, 0, m) || slides(b, p, -1, 0, m),
{
    let a = b.ray(p, 0, 1, 1);
    let c = b.ray(p, 0, -1, 1);
    let d = b.ray(p, 1, 0, 1);
    let e = b.ray(p, -1, 0, 1);
    lemma_concat_member(a + c + d, e, m);
    if (a + c + d).contains(m) {
        lemma_concat_member(a + c, d, m);
        if (a + c).contains(m) {
            lemma_concat_member(a, c, m);
            if a.contains(m) {
                lemma_ray_slides(b, p, 0, 1, m);
            } else {
                lemma_ray_slides(b, p, 0, -1, m);
            }
        } else {
            lemma_ray_slides(b, p, 1, 0, m);
        }
    } else {
        lemma_ray_slides(b, p, -1, 0, m);
    }
}

/// Bishop moves slide along a diagonal over empty squares.
proof fn lemma_bishop_slides(b: BoardModel, p: Piece, m: Move)
    requires
        b.exact(),
        b.bishop_moves(p).contains(m),
    ensures
        slides(b, p, 1, 1, m) || slides(b, p, 1, -1, m) || slides(b, p, -1, 1, m) || slides(b, p, -1, -1, m),
{
    let a = b.ray(p, 1, 1, 1);
    let c = b.ray(p, 1, -1, 1);
    let d = b.ray(p, -1, 1, 1);
    let e = b.ray(p, -1, -1, 1);
    lemma_concat_member(a + c + d, e, m);
    if (a + c + d).contains(m) {
        lemma_concat_member(a + c, d, m);
        if (a + c).contains(m) {
            lemma_concat_member(a, c, m);
            if a.contains(m) {
                lemma_ray_slides(b, p, 1, 1, m);
            } else {
                lemma_ray_slides(b, p, 1, -1, m);
            }
        } else {
            lemma_ray_slides(b, p, -1, 1, m);
        }
    } else {
        lemma_ray_slides(b, p, -1, -1, m);
    }
}

/// On a board whose bitboards are exactly its squares, a rook, bishop or queen
/// move starts from the piece and slides it in a straight line (a rank or file
/// for the rook, a diagonal for the bishop, either for the queen) over squares
/// that hold no piece: nothing stands strictly between its start and its end,
/// so a capture ends its line.
pub proof fn law_sliding_paths_clear(b: BoardModel, p: Piece, m: Move)
    requires
        b.exact(),
        p.tp == PieceType::Rook || p.tp == PieceType::Bishop || p.tp == PieceType::Queen,
        b.piece_moves(p).contains(m),
    ensures
        m.start_piece == p,
        p.tp == PieceType::Rook ==> slides(b, p, 0, 1, m) || slides(b, p, 0, -1, m) || slides(b, p, 1, 0, m)
            || slides(b, p, -1, 0, m),
        p.tp == PieceType::Bishop ==> slides(b, p, 1, 1, m) || slides(b, p, 1, -1, m) || slides(b, p, -1, 1, m)
            || slides(b, p, -1, -1, m),
        p.tp == PieceType::Queen ==> slides(b, p, 0, 1, m) || slides(b, p, 0, -1, m) || slides(b, p, 1, 0, m)
            || slides(b, p, -1, 0, m) || slides(b, p, 1, 1, m) || slides(b, p, 1, -1, m) || slides(
            b,
            p,
            -1,
            1,
            m,
        ) || slides(b, p, -1, -1, m),
{
    lemma_piece_moves_generated(b, p);
    let k = choose|k: int| 0 <= k < b.piece_moves(p).len() && b.piece_moves(p)[k] == m;
    assert(generated(b, p, b.piece_moves(p)[k]));
    if p.tp == PieceType::Rook {
        lemma_rook_slides(b, p, m);
    } else if p.tp == PieceType::Bishop {
        lemma_bishop_slides(b, p, m);
    } else {
        lemma_concat_member(b.bishop_moves(p), b.rook_moves(p), m);
        if b.bishop_moves(p).contains(m) {
            lemma_bishop_slides(b, p, m);
        } else {
            lemma_rook_slides(b, p, m);
        }
    }
}

/// Two squares are next to each other: at most one row and one file apart.
pub open spec fn adjacent(a: (u8, u8), c: (u8, u8)) -> bool {
    a != c && -1 <= a.0 - c.0 <= 1 && -1 <= a.1 - c.1 <= 1
}

/// A move is refused as leaving its side's king to be taken whenever, after
/// it, some move of the other side (whatever piece makes it) names a king as the
/// piece it takes: it is not a legal move and `play_move` answers an error.
pub proof fn law_exposing_a_king_is_refused(b: BoardModel, m: Move, reply: Move)
    requires
        b.play(m).all_moves().contains(reply),
        reply.captured_piece matches Some(c) && c.tp == PieceType::King,
    ensures
        !b.legal_moves().contains(m),
        b.move_outcome(m) is Err,
{
    let ms = b.play(m).all_moves();
    let k = choose|k: int| 0 <= k < ms.len() && ms[k] == reply;
    assert(crate::movegen::takes_king(ms[k]));
    assert(captures_king(ms));
    if b.legal_moves().contains(m) {
        law_legal_moves_are_safe(b, m);
    }
}

/// On a consistent board, a king of the side to play can take any piece of the
/// other side standing next to it: that move is among the side's moves.
pub proof fn law_king_takes_adjacent_piece(b: BoardModel, k: Piece, x: Piece)
    requires
        b.consistent(),
        b.mover_pieces().contains(k),
        k.tp == PieceType::King,
        b.opponent_pieces().contains(x),
        -1 <= x.pos.0 - k.pos.0 <= 1,
        -1 <= x.pos.1 - k.pos.1 <= 1,
    ensures
        b.all_moves().contains(
            Move {
                start_piece: k,
                end_piece: Piece { tp: PieceType::King, pos: x.pos, col: k.col },
                captured_piece: Some(x),
            },
        ),
{
    let s = b.mover_pieces();
    let o = b.opponent_pieces();
    let i = choose|i: int| 0 <= i < s.len() && s[i] == k;
    let q = choose|q: int| 0 <= q < o.len() && o[q] == x;
    assert(on_board(s[i].pos) && on_board(o[q].pos));
    assert(side_exact(s, b.mover_bb()) && side_exact(o, b.opponent_bb()));
    let d0 = x.pos.0 - k.pos.0;
    let d1 = x.pos.1 - k.pos.1;
    let j = (d0 + 1) * 3 + d1 + 1;
    assert(j / 3 == d0 + 1 && j % 3 == d1 + 1 && 0 <= j < 9) by (nonlinear_arith)
        requires
            j == (d0 + 1) * 3 + d1 + 1,
            -1 <= d0 <= 1,
            -1 <= d1 <= 1,
    ;
    assert(deltas(Jump::King)[j] == (d0, d1));
    // the square holds a piece of the other side, so none of the side to play
    assert(occupies(o, x.pos));
    assert(!occupies(s, x.pos)) by {
        if b.white_to_play() {
            assert(!(occupies(b.white, x.pos) && occupies(b.black, x.pos)));
        } else {
            assert(!(occupies(b.white, x.pos) && occupies(b.black, x.pos)));
        }
    }
    lemma_first_at(o, x.pos);
    let f = first_at(o, x.pos).unwrap();
    assert(o.contains(f) && o.contains(x) && f.pos == x.pos);
    assert(f == x);
    let mv = Move {
        start_piece: k,
        end_piece: Piece { tp: PieceType::King, pos: x.pos, col: k.col },
        captured_piece: Some(x),
    };
    assert(((as_signed(k.pos.0) + d0) as u8, (as_signed(k.pos.1) + d1) as u8) == x.pos);
    assert(b.move_to(k, x.pos) == Some(mv));
    assert(b.jump_at(k, Jump::King, deltas(Jump::King)[j]) == Some(mv));
    lemma_jumps_contains(b, k, Jump::King, 9, j, mv);
    assert(b.piece_moves(s[i]).contains(mv));
    lemma_all_moves_contains(b, s, i, mv);
}

/// On a consistent board, a king may not step next to the other side's king
/// (to a square its side does not hold, without taking that king): the move is
/// not legal and `play_move` answers an error, because the other king could
/// then take it.
pub proof fn law_kings_never_stand_adjacent(b: BoardModel, m: Move, x: Piece)
    requires
        b.consistent(),
        b.mover_pieces().contains(m.start_piece),
        m.start_piece.tp == PieceType::King,
        crate::board::move_on_board(m),
        b.fair(m),
        b.opponent_pieces().contains(x),
        x.tp == PieceType::King,
        m.captured_piece != Some(x),
        adjacent(m.end_piece.pos, x.pos),
    ensures
        !b.legal_moves().contains(m),
        b.move_outcome(m) is Err,
{
    let p = b.play(m);
    crate::board::lemma_play_consistent(b, m);
    let s = b.mover_pieces();
    let o = b.opponent_pieces();
    let s2 = insert_piece(remove_piece(s, m.start_piece), arrived(m));
    lemma_remove_piece(s, m.start_piece);
    lemma_insert_piece(remove_piece(s, m.start_piece), arrived(m));
    assert(s2.contains(arrived(m)));
    let o2 = match m.captured_piece {
        Some(c) => if o.contains(c) {
            remove_piece(o, c)
        } else {
            o
        },
        None => o,
    };
    if let Some(c) = m.captured_piece {
        lemma_remove_piece(o, c);
    }
    assert(o2.contains(x));
    if b.white_to_play() {
        assert(p.white == s2 && p.black == o2);
    } else {
        assert(p.black == s2 && p.white == o2);
    }
    assert(p.mover_pieces() == o2 && p.opponent_pieces() == s2);
    law_king_takes_adjacent_piece(p, x, arrived(m));
    let reply = Move {
        start_piece: x,
        end_piece: Piece { tp: PieceType::King, pos: arrived(m).pos, col: x.col },
        captured_piece: Some(arrived(m)),
    };
    law_exposing_a_king_is_refused(b, m, reply);
}

/// A square no piece stands on.
pub open spec fn empty_square(b: BoardModel, pos: (u8, u8)) -> bool {
    !occupies(b.white, pos) && !occupies(b.black, pos)
}

/// On a board whose bitboards are exactly its squares, a piece's move to an
/// empty square of the board is a quiet move there.
proof fn lemma_move_to_empty(b: BoardModel, p: Piece, t: (u8, u8))
    requires
        b.exact(),
        on_board(t),
        empty_square(b, t),
    ensures
        b.move_to(p, t) == Some(Move { start_piece: p, end_piece: Piece { tp: p.tp, pos: t, col: p.col }, captured_piece: None }),
{
    assert(side_exact(b.white, b.white_bb) && side_exact(b.black, b.black_bb));
}

/// On a consistent board, a piece's move to a square holding the other side's
/// piece `x` takes `x`.
proof fn lemma_move_to_capture(b: BoardModel, p: Piece, x: Piece)
    requires
        b.consistent(),
        b.opponent_pieces().contains(x),
    ensures
        b.move_to(p, x.pos) == Some(Move { start_piece: p, end_piece: Piece { tp: p.tp, pos: x.pos, col: p.col }, captured_piece: Some(x) }),
{
    let s = b.mover_pieces();
    let o = b.opponent_pieces();
    let q = choose|q: int| 0 <= q < o.len() && o[q] == x;
    assert(on_board(o[q].pos));
    assert(side_exact(s, b.mover_bb()) && side_exact(o, b.opponent_bb()));
    assert(occupies(o, x.pos));
    assert(!occupies(s, x.pos)) by {
        assert(!(occupies(b.white, x.pos) && occupies(b.black, x.pos)));
    }
    lemma_first_at(o, x.pos);
    let f = first_at(o, x.pos).unwrap();
    assert(o.contains(f) && o.contains(x) && f.pos == x.pos);
}

/// The delta at index `(d0 - lo_r) * n_c + (d1 - lo_c)` of a grid is (d0, d1).
proof fn lemma_grid_index(lo_r: int, n_r: int, lo_c: int, n_c: int, d0: int, d1: int)
    requires
        lo_r <= d0 < lo_r + n_r,
        lo_c <= d1 < lo_c + n_c,
    ensures
        0 <= (d0 - lo_r) * n_c + (d1 - lo_c) < n_r * n_c,
        crate::movegen::grid(lo_r, n_r, lo_c, n_c)[(d0 - lo_r) * n_c + (d1 - lo_c)] == (d0, d1),
{
    let j = (d0 - lo_r) * n_c + (d1 - lo_c);
    assert(0 <= j < n_r * n_c && j / n_c == d0 - lo_r && j % n_c == d1 - lo_c) by (nonlinear_arith)
        requires
            j == (d0 - lo_r) * n_c + (d1 - lo_c),
            0 <= d0 - lo_r < n_r,
            0 <= d1 - lo_c < n_c,
    ;
}

/// The delta at index `j` of a grid lies in the grid's ranges.
proof fn lemma_grid_range(lo_r: int, n_r: int, lo_c: int, n_c: int, j: int)
    requires
        0 <= j < n_r * n_c,
        n_c > 0,
    ensures
        lo_r <= crate::movegen::grid(lo_r, n_r, lo_c, n_c)[j].0 < lo_r + n_r,
        lo_c <= crate::movegen::grid(lo_r, n_r, lo_c, n_c)[j].1 < lo_c + n_c,
{
    assert(0 <= j / n_c < n_r && 0 <= j % n_c < n_c) by (nonlinear_arith)
        requires
            0 <= j < n_r * n_c,
            n_c > 0,
    ;
}

/// The direction a pawn of `p`'s color moves in: up the rows for White, down
/// for Black.
pub open spec fn forward(p: Piece) -> int {
    if p.col == Color::White {
        1
    } else {
        -1
    }
}

/// The quiet move of `p` to `t`.
pub open spec fn quiet_move(p: Piece, t: (u8, u8)) -> Move {
    Move { start_piece: p, end_piece: Piece { tp: p.tp, pos: t, col: p.col }, captured_piece: None }
}

/// The move of `p` onto `x`'s square, taking `x`.
pub open spec fn capture_move(p: Piece, x: Piece) -> Move {
    Move { start_piece: p, end_piece: Piece { tp: p.tp, pos: x.pos, col: p.col }, captured_piece: Some(x) }
}

/// A king's or knight's move starts from the piece and lands on the board: a
/// king's next to its square, a knight's two rows and one file or one row and
/// two files away; a capture takes the other side's piece on that square.
pub proof fn law_king_and_knight_moves(b: BoardModel, p: Piece, m: Move)
    requires
        b.consistent(),
        b.mover_pieces().contains(p),
        p.tp == PieceType::King || p.tp == PieceType::Knight,
        b.piece_moves(p).contains(m),
    ensures
        m.start_piece == p,
        on_board(m.end_piece.pos),
        p.tp == PieceType::King ==> adjacent(m.end_piece.pos, p.pos),
        p.tp == PieceType::Knight ==> {
            let dr = abs(m.end_piece.pos.0 - p.pos.0);
            let dc = abs(m.end_piece.pos.1 - p.pos.1);
            (dr == 1 && dc == 2) || (dr == 2 && dc == 1)
        },
        m.captured_piece matches Some(c) ==> b.opponent_pieces().contains(c) && c.pos == m.end_piece.pos,
{
    let s = b.mover_pieces();
    let i = choose|i: int| 0 <= i < s.len() && s[i] == p;
    assert(on_board(s[i].pos));
    assert(side_exact(s, b.mover_bb()));
    assert(bit_set(b.mover_bb(), square_index(p.pos))) by {
        assert(occupies(s, p.pos));
    }
    lemma_piece_moves_generated(b, p);
    let k = choose|k: int| 0 <= k < b.piece_moves(p).len() && b.piece_moves(p)[k] == m;
    assert(generated(b, p, b.piece_moves(p)[k]));
    if p.tp == PieceType::King {
        lemma_jumps_member(b, p, Jump::King, 9, m);
        let j = choose|j: int| 0 <= j < 9 && #[trigger] b.jump_at(p, Jump::King, deltas(Jump::King)[j]) == Some(m);
        lemma_grid_range(-1, 3, -1, 3, j);
    } else {
        lemma_jumps_member(b, p, Jump::Knight, 25, m);
        let j = choose|j: int| 0 <= j < 25 && #[trigger] b.jump_at(p, Jump::Knight, deltas(Jump::Knight)[j]) == Some(m);
        lemma_grid_range(-2, 5, -2, 5, j);
    }
}

/// On a consistent board a king or knight on the board reaches every square of
/// its pattern (next to it for the king; two rows and one file or one row and
/// two files away for the knight): an empty one by a quiet move, one holding
/// the other side's piece `x` by taking `x`.
pub proof fn law_king_and_knight_reach(b: BoardModel, p: Piece, t: (u8, u8), x: Piece)
    requires
        b.consistent(),
        on_board(p.pos),
        on_board(t),
        p.tp == PieceType::King && adjacent(t, p.pos) || p.tp == PieceType::Knight && ({
            let dr = abs(t.0 - p.pos.0);
            let dc = abs(t.1 - p.pos.1);
            (dr == 1 && dc == 2) || (dr == 2 && dc == 1)
        }),
    ensures
        empty_square(b, t) ==> b.piece_moves(p).contains(quiet_move(p, t)),
        b.opponent_pieces().contains(x) && x.pos == t ==> b.piece_moves(p).contains(capture_move(p, x)),
{
    let d0 = t.0 - p.pos.0;
    let d1 = t.1 - p.pos.1;
    let (kind, lo, n) = if p.tp == PieceType::King {
        (Jump::King, -1int, 3int)
    } else {
        (Jump::Knight, -2int, 5int)
    };
    lemma_grid_index(lo, n, lo, n, d0, d1);
    let j = (d0 - lo) * n + (d1 - lo);
    assert(deltas(kind)[j] == (d0, d1));
    assert(((as_signed(p.pos.0) + d0) as u8, (as_signed(p.pos.1) + d1) as u8) == t);
    if empty_square(b, t) {
        lemma_move_to_empty(b, p, t);
        assert(b.jump_at(p, kind, deltas(kind)[j]) == Some(quiet_move(p, t)));
        lemma_jumps_contains(b, p, kind, n * n, j, quiet_move(p, t));
    }
    if b.opponent_pieces().contains(x) && x.pos == t {
        lemma_move_to_capture(b, p, x);
        assert(b.jump_at(p, kind, deltas(kind)[j]) == Some(capture_move(p, x)));
        lemma_jumps_contains(b, p, kind, n * n, j, capture_move(p, x));
    }
}

/// On a consistent board a pawn on the board steps one square forward to an
/// empty square, two squares straight forward from the second or seventh row to
/// an empty square, and takes a piece of the other side one square forward and
/// one file aside.
pub proof fn law_pawn_reaches(b: BoardModel, p: Piece, t: (u8, u8), x: Piece)
    requires
        b.consistent(),
        on_board(p.pos),
        on_board(t),
        p.tp == PieceType::Pawn,
    ensures
        empty_square(b, t) && t.1 == p.pos.1 && t.0 == p.pos.0 + forward(p) ==> b.piece_moves(p).contains(
            quiet_move(p, t),
        ),
        empty_square(b, t) && t.1 == p.pos.1 && (p.pos.0 == 1 || p.pos.0 == 6) && t.0 == p.pos.0 + 2
            * forward(p) ==> b.piece_moves(p).contains(quiet_move(p, t)),
        b.opponent_pieces().contains(x) && x.pos.0 == p.pos.0 + forward(p) && abs(x.pos.1 - p.pos.1)
            == 1 ==> b.piece_moves(p).contains(capture_move(p, x)),
{
    if empty_square(b, t) && t.1 == p.pos.1 && (t.0 == p.pos.0 + forward(p) || ((p.pos.0 == 1
        || p.pos.0 == 6) && t.0 == p.pos.0 + 2 * forward(p))) {
        let d0 = t.0 - p.pos.0;
        lemma_grid_index(-2, 5, -1, 3, d0, 0);
        let j = (d0 + 2) * 3 + 1;
        assert(deltas(Jump::Pawn)[j] == (d0, 0int));
        assert(((as_signed(p.pos.0) + d0) as u8, (as_signed(p.pos.1) + 0) as u8) == t);
        lemma_move_to_empty(b, p, t);
        assert(b.jump_at(p, Jump::Pawn, deltas(Jump::Pawn)[j]) == Some(quiet_move(p, t)));
        lemma_jumps_contains(b, p, Jump::Pawn, 15, j, quiet_move(p, t));
    }
    if b.opponent_pieces().contains(x) && x.pos.0 == p.pos.0 + forward(p) && abs(x.pos.1 - p.pos.1)
        == 1 {
        let o = b.opponent_pieces();
        let q = choose|q: int| 0 <= q < o.len() && o[q] == x;
        assert(on_board(o[q].pos));
        let d0 = forward(p);
        let d1 = x.pos.1 - p.pos.1;
        lemma_grid_index(-2, 5, -1, 3, d0, d1);
        let j = (d0 + 2) * 3 + (d1 + 1);
        assert(deltas(Jump::Pawn)[j] == (d0, d1));
        assert(((as_signed(p.pos.0) + d0) as u8, (as_signed(p.pos.1) + d1) as u8) == x.pos);
        lemma_move_to_capture(b, p, x);
        assert(b.jump_at(p, Jump::Pawn, deltas(Jump::Pawn)[j]) == Some(capture_move(p, x)));
        lemma_jumps_contains(b, p, Jump::Pawn, 15, j, capture_move(p, x));
    }
}

/// A move among `x` or among `y` is among `x + y`.
proof fn lemma_concat_contains(x: Seq<Move>, y: Seq<Move>, m: Move)
    requires
        x.contains(m) || y.contains(m),
    ensures
        (x + y).contains(m),
{
    if x.contains(m) {
        let k = choose|k: int| 0 <= k < x.len() && x[k] == m;
        assert((x + y)[k] == m);
    } else {
        let k = choose|k: int| 0 <= k < y.len() && y[k] == m;
        assert((x + y)[x.len() + k] == m);
    }
}

/// A ray from step `k` reaches the square `j` steps away when the squares
/// between are empty.
proof fn lemma_ray_reaches(b: BoardModel, p: Piece, dr: int, dc: int, k: int, j: int, mv: Move)
    requires
        b.exact(),
        on_board(p.pos),
        -1 <= dr <= 1,
        -1 <= dc <= 1,
        1 <= k <= j < 8,
        in_range(offset(p.pos.0 as int, dr, j)),
        in_range(offset(p.pos.1 as int, dc, j)),
        forall|i: int| k <= i < j ==> empty_square(b, #[trigger] step(p.pos, dr, dc, i)),
        b.move_to(p, step(p.pos, dr, dc, j)) == Some(mv),
    ensures
        b.ray(p, dr, dc, k).contains(mv),
    decreases j - k,
{
    let r = offset(p.pos.0 as int, dr, k);
    let c = offset(p.pos.1 as int, dc, k);
    assert(in_range(r) && in_range(c));
    if k == j {
        assert(b.ray(p, dr, dc, k)[0] == mv);
    } else {
        assert(empty_square(b, step(p.pos, dr, dc, k)));
        lemma_move_to_empty(b, p, (r as u8, c as u8));
        lemma_ray_reaches(b, p, dr, dc, k + 1, j, mv);
        let rest = b.ray(p, dr, dc, k + 1);
        assert(b.ray(p, dr, dc, k) == seq![quiet_move(p, (r as u8, c as u8))] + rest);
        let q = choose|q: int| 0 <= q < rest.len() && rest[q] == mv;
        assert(b.ray(p, dr, dc, k)[q + 1] == mv);
    }
}

/// A rook slides along ranks and files, a bishop along diagonals, a queen along
/// both.
pub open spec fn slides_that_way(tp: PieceType, dr: int, dc: int) -> bool {
    &&& -1 <= dr <= 1
    &&& -1 <= dc <= 1
    &&& !(dr == 0 && dc == 0)
    &&& tp == PieceType::Rook ==> dr == 0 || dc == 0
    &&& tp == PieceType::Bishop ==> dr != 0 && dc != 0
    &&& (tp == PieceType::Rook || tp == PieceType::Bishop || tp == PieceType::Queen)
}

/// A move of the ray of a sliding piece in one of its directions is one of its moves.
proof fn lemma_ray_in_piece_moves(b: BoardModel, p: Piece, dr: int, dc: int, m: Move)
    requires
        slides_that_way(p.tp, dr, dc),
        b.ray(p, dr, dc, 1).contains(m),
    ensures
        b.piece_moves(p).contains(m),
{
    let r1 = b.ray(p, 0, 1, 1);
    let r2 = b.ray(p, 0, -1, 1);
    let r3 = b.ray(p, 1, 0, 1);
    let r4 = b.ray(p, -1, 0, 1);
    let b1 = b.ray(p, 1, 1, 1);
    let b2 = b.ray(p, 1, -1, 1);
    let b3 = b.ray(p, -1, 1, 1);
    let b4 = b.ray(p, -1, -1, 1);
    if dr == 0 || dc == 0 {
        // the rook's rays, in the order they are listed
        if dr == 0 {
            lemma_concat_contains(r1, r2, m);
        }
        if dr != -1 {
            lemma_concat_contains(r1 + r2, r3, m);
        }
        lemma_concat_contains(r1 + r2 + r3, r4, m);
    } else {
        // the bishop's rays, in the order they are listed
        if dr == 1 {
            lemma_concat_contains(b1, b2, m);
        }
        if !(dr == -1 && dc == -1) {
            lemma_concat_contains(b1 + b2, b3, m);
        }
        lemma_concat_contains(b1 + b2 + b3, b4, m);
    }
    if p.tp == PieceType::Queen {
        lemma_concat_contains(b.bishop_moves(p), b.rook_moves(p), m);
    }
}

/// On a consistent board a rook, bishop or queen on the board reaches every
/// square along its lines up to the first piece in the way: an empty square by
/// a quiet move, the other side's piece `x` there by taking it.
pub proof fn law_sliding_reaches(b: BoardModel, p: Piece, dr: int, dc: int, j: int, x: Piece)
    requires
        b.consistent(),
        on_board(p.pos),
        slides_that_way(p.tp, dr, dc),
        1 <= j < 8,
        in_range(offset(p.pos.0 as int, dr, j)),
        in_range(offset(p.pos.1 as int, dc, j)),
        forall|i: int| 1 <= i < j ==> empty_square(b, #[trigger] step(p.pos, dr, dc, i)),
    ensures
        empty_square(b, step(p.pos, dr, dc, j)) ==> b.piece_moves(p).contains(
            quiet_move(p, step(p.pos, dr, dc, j)),
        ),
        b.opponent_pieces().contains(x) && x.pos == step(p.pos, dr, dc, j) ==> b.piece_moves(p).contains(
            capture_move(p, x),
        ),
{
    let t = step(p.pos, dr, dc, j);
    assert(on_board(t));
    if empty_square(b, t) {
        lemma_move_to_empty(b, p, t);
        lemma_ray_reaches(b, p, dr, dc, 1, j, quiet_move(p, t));
        lemma_ray_in_piece_moves(b, p, dr, dc, quiet_move(p, t));
    }
    if b.opponent_pieces().contains(x) && x.pos == t {
        lemma_move_to_capture(b, p, x);
        lemma_ray_reaches(b, p, dr, dc, 1, j, capture_move(p, x));
        lemma_ray_in_piece_moves(b, p, dr, dc, capture_move(p, x));
    }
}

/// A move after which no move of the other side takes a king is never refused
/// as leaving its side's king to be taken; a quiet move the side can make is
/// then a legal move.
pub proof fn law_safe_moves_are_not_refused(b: BoardModel, m: Move)
    requires
        forall|i: int|
            0 <= i < b.play(m).all_moves().len() ==> ((#[trigger] b.play(m).all_moves()[i]).captured_piece
                matches Some(c) ==> c.tp != PieceType::King),
    ensures
        b.move_outcome(m) != Err::<(), crate::piece::MoveError>(crate::piece::MoveError::SelfCheck),
        b.all_moves().contains(m) && m.captured_piece is None ==> b.legal_moves().contains(m),
{
    let ms = b.play(m).all_moves();
    assert(!captures_king(ms)) by {
        if captures_king(ms) {
            let i = choose|i: int| 0 <= i < ms.len() && crate::movegen::takes_king(#[trigger] ms[i]);
            assert(ms[i].captured_piece matches Some(c) && c.tp == PieceType::King);
        }
    }
    law_legal_moves_complete(b, m);
}

} // verus!
