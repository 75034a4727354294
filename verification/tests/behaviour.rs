use chess::bitboard::Bitboard;
use chess::board::Board;
use chess::piece::{Color, Move, MoveError, Piece, PieceType};

fn piece(tp: PieceType, pos: (u8, u8), col: Color) -> Piece {
    Piece { tp, pos, col }
}

#[test]
fn bitboard_set_get_clear_combine() {
    let mut b = Bitboard::default();
    assert!(!b.get((3, 4)));
    b.set((3, 4));
    assert!(b.get((3, 4)));
    assert_eq!(b.0, 1u64 << 28);
    let mut c = Bitboard::default();
    c.set((7, 7));
    assert_eq!(b.combine(c).0, (1u64 << 28) | (1u64 << 63));
    b.clear((3, 4));
    assert_eq!(b, Bitboard::default());
    // clearing a square that is not set changes nothing
    b.clear((0, 1));
    assert_eq!(b.0, 0);
}

#[test]
fn empty_board_has_white_to_play_and_no_moves() {
    let b = Board::empty();
    assert_eq!(b.get_curr_player(), Color::White);
    assert!(b.get_legal_moves().is_empty());
    assert!(b.played_moves().is_empty());
}

#[test]
fn equality_ignores_insertion_order() {
    let mut a = Board::empty();
    let mut b = Board::empty();
    let k = piece(PieceType::King, (0, 0), Color::White);
    let q = piece(PieceType::Queen, (3, 3), Color::White);
    a.add_piece(k);
    a.add_piece(q);
    b.add_piece(q);
    b.add_piece(k);
    assert_eq!(a, b);
    // adding the same piece twice keeps one copy
    b.add_piece(k);
    assert_eq!(a, b);
    assert_eq!(b.white_pieces().len(), 2);
}

#[test]
fn queen_moves_are_bishop_then_rook_moves() {
    let mut b = Board::empty();
    let q = piece(PieceType::Queen, (3, 3), Color::White);
    b.add_piece(q);
    let moves = b.get_all_moves_for_piece(q);
    assert_eq!(moves.len(), 27);
    let mut expected = b.get_bishop_moves(q);
    expected.extend(b.get_rook_moves(q));
    assert_eq!(moves, expected);
    // the first bishop ray goes up and right
    assert_eq!(moves[0].end_piece.pos, (4, 4));
    assert_eq!(moves[0].end_piece, piece(PieceType::Queen, (4, 4), Color::White));
}

#[test]
fn rook_ray_stops_at_first_capture() {
    let mut b = Board::empty();
    let r = piece(PieceType::Rook, (0, 0), Color::White);
    b.add_piece(r);
    let target = piece(PieceType::Pawn, (0, 3), Color::Black);
    b.add_piece(target);
    b.add_piece(piece(PieceType::Pawn, (1, 0), Color::White));
    let moves = b.get_rook_moves(r);
    assert_eq!(moves.len(), 3);
    assert_eq!(moves[2].captured_piece, Some(target));
    assert_eq!(moves[0].captured_piece, None);
}

#[test]
fn knight_in_corner_has_two_moves() {
    let mut b = Board::empty();
    let n = piece(PieceType::Knight, (0, 0), Color::White);
    b.add_piece(n);
    let moves = b.get_knight_moves(n);
    assert_eq!(moves.len(), 2);
    assert_eq!(moves[0].end_piece.pos, (1, 2));
    assert_eq!(moves[1].end_piece.pos, (2, 1));
}

#[test]
fn king_moves_in_grid_order() {
    let mut b = Board::empty();
    let k = piece(PieceType::King, (0, 0), Color::White);
    b.add_piece(k);
    let moves = b.get_king_moves(k);
    let ends: Vec<(u8, u8)> = moves.iter().map(|m| m.end_piece.pos).collect();
    assert_eq!(ends, vec![(0, 1), (1, 0), (1, 1)]);
}

#[test]
fn white_pawn_moves_and_captures() {
    let mut b = Board::empty();
    let p = piece(PieceType::Pawn, (1, 4), Color::White);
    b.add_piece(p);
    let victim = piece(PieceType::Knight, (2, 5), Color::Black);
    b.add_piece(victim);
    let moves = b.get_pawn_moves(p);
    let ends: Vec<(u8, u8)> = moves.iter().map(|m| m.end_piece.pos).collect();
    assert_eq!(ends, vec![(2, 4), (2, 5), (3, 4)]);
    assert_eq!(moves[1].captured_piece, Some(victim));
}

#[test]
fn black_pawn_moves_down_the_board_only() {
    let b = Board::from_fen("8/3p4/8/8/8/8/8/8 b - - 0 2").unwrap();
    assert_eq!(b.get_curr_player(), Color::Black);
    let p = piece(PieceType::Pawn, (6, 3), Color::Black);
    let moves = b.get_pawn_moves(p);
    let ends: Vec<(u8, u8)> = moves.iter().map(|m| m.end_piece.pos).collect();
    assert_eq!(ends, vec![(4, 3), (5, 3)]);
    assert!(moves.iter().all(|m| m.captured_piece.is_none()));
}

#[test]
fn black_pawn_captures_diagonally_forward() {
    let mut b = Board::from_fen("8/3p4/2N1N3/8/8/8/8/8 b - - 0 2").unwrap();
    let p = piece(PieceType::Pawn, (6, 3), Color::Black);
    let moves = b.get_pawn_moves(p);
    let ends: Vec<(u8, u8)> = moves.iter().map(|m| m.end_piece.pos).collect();
    assert_eq!(ends, vec![(4, 3), (5, 2), (5, 3), (5, 4)]);
    assert_eq!(moves[1].captured_piece, Some(piece(PieceType::Knight, (5, 2), Color::White)));
    b.add_piece(piece(PieceType::Knight, (7, 3), Color::White));
    // a white knight behind the pawn is not taken
    assert_eq!(b.get_pawn_moves(p).len(), 4);
}

#[test]
fn play_move_refusals() {
    let mut b = Board::empty();
    let k = piece(PieceType::King, (0, 0), Color::White);
    let n = piece(PieceType::Knight, (0, 1), Color::White);
    b.add_piece(k);
    b.add_piece(n);
    b.add_piece(piece(PieceType::Rook, (7, 1), Color::Black));
    let before = b.clone();

    let off = Move { start_piece: k, end_piece: piece(PieceType::King, (70, 0), Color::White), captured_piece: None };
    assert!(matches!(b.play_move(off), Err(MoveError::OutOfBounds)));

    let own = Move { start_piece: k, end_piece: piece(PieceType::King, (0, 1), Color::White), captured_piece: Some(n) };
    assert!(matches!(b.play_move(own), Err(MoveError::SelfCapture)));

    let into_check = Move { start_piece: k, end_piece: piece(PieceType::King, (1, 1), Color::White), captured_piece: None };
    assert!(matches!(b.play_move(into_check), Err(MoveError::SelfCheck)));

    let ghost = piece(PieceType::Pawn, (4, 4), Color::Black);
    let empty_capture = Move { start_piece: k, end_piece: piece(PieceType::King, (1, 0), Color::White), captured_piece: Some(ghost) };
    assert!(matches!(b.play_move(empty_capture), Err(MoveError::CapturingEmptySquare)));

    assert_eq!(b, before);

    let good = Move { start_piece: k, end_piece: piece(PieceType::King, (1, 0), Color::White), captured_piece: None };
    assert!(b.play_move(good).is_ok());
    assert_eq!(b.get_curr_player(), Color::Black);
    assert_eq!(b.played_moves().len(), 1);
    assert!(b.white_pieces().contains(&piece(PieceType::King, (1, 0), Color::White)));
    assert!(b.undo_last_move().is_some());
    assert_eq!(b, before);
    assert_eq!(b.get_curr_player(), Color::White);
}

#[test]
fn every_legal_move_is_accepted_and_undone() {
    let start = Board::default();
    let moves = start.get_legal_moves();
    assert_eq!(moves.len(), 20);
    for m in moves {
        let mut b = start.clone();
        assert!(b.play_move(m).is_ok());
        assert_ne!(b, start);
        assert!(b.undo_last_move().is_some());
        assert_eq!(b, start);
    }
}

#[test]
fn undo_without_history_or_of_unknown_moves() {
    let mut b = Board::empty();
    assert!(b.undo_last_move().is_none());
    let mut c = Board::from_fen("8/8/8/8/8/8/8/8 b - - 0 4").unwrap();
    assert_eq!(c.played_moves().len(), 3);
    assert_eq!(c.played_moves()[0], Move::unknown_move());
    let before = c.clone();
    assert!(c.undo_last_move().is_none());
    assert_eq!(c, before);
}

#[test]
fn default_is_the_start_record() {
    let start = "rnbqkbnr/pppppppp/8/8/8/8/PPPPPPPP/RNBQKBNR w KQkq - 0 1";
    assert_eq!(Board::default(), Board::from_fen(start).unwrap());
    assert_eq!(Board::default().white_pieces().len(), 16);
    assert_eq!(Board::default().black_pieces().len(), 16);
}

#[test]
fn fen_side_to_move_and_move_number() {
    assert!(Board::from_fen("8/8/8/8/8/8/8/8 w - - 0 2").is_none());
    assert!(Board::from_fen("8/8/8/8/8/8/8/8 b - - 0 1").is_none());
    let b = Board::from_fen("8/8/8/8/8/8/8/8 b - - 0 2").unwrap();
    assert_eq!(b.get_curr_player(), Color::Black);
    // full-move number 0 with any letter but w: nothing played, White to play
    let z = Board::from_fen("8/8/8/8/8/8/8/8 b - - 0 0").unwrap();
    assert_eq!(z.get_curr_player(), Color::White);
    assert!(z.played_moves().is_empty());
    // any first byte other than w counts as Black
    assert!(Board::from_fen("8/8/8/8/8/8/8/8 x - - 0 2").is_some());
}

#[test]
fn fen_numbers() {
    assert!(Board::from_fen("8/8/8/8/8/8/8/8 w - - +0 +1").is_some());
    assert!(Board::from_fen("8/8/8/8/8/8/8/8 w - - 255 1").is_some());
    assert!(Board::from_fen("8/8/8/8/8/8/8/8 w - - 256 1").is_none());
    assert!(Board::from_fen("8/8/8/8/8/8/8/8 w - - -1 1").is_none());
    assert!(Board::from_fen("8/8/8/8/8/8/8/8 w - - + 1").is_none());
    assert!(Board::from_fen("8/8/8/8/8/8/8/8 w - - 0 4294967296").is_none());
    assert!(Board::from_fen("8/8/8/8/8/8/8/8 w - - 0 1x").is_none());
}

#[test]
fn fen_sections_and_rows() {
    // empty ranks are dropped, extra sections ignored, a trailing space allowed
    assert!(Board::from_fen("8//8/8/8/8/8/8/8 w - - 0 1").is_some());
    assert!(Board::from_fen("8/8/8/8/8/8/8/8 w - - 0 1 extra").is_some());
    assert!(Board::from_fen("8/8/8/8/8/8/8/8 w - - 0 1 ").is_some());
    // a double space makes an empty side-to-move section
    assert!(Board::from_fen("8/8/8/8/8/8/8/8  w - - 0 1").is_none());
    // ranks that do not reach the eighth file, or hold other bytes
    assert!(Board::from_fen("7/8/8/8/8/8/8/8 w - - 0 1").is_none());
    assert!(Board::from_fen("9/8/8/8/8/8/8/8 w - - 0 1").is_none());
    assert!(Board::from_fen("44x/8/8/8/8/8/8/8 w - - 0 1").is_none());
    assert!(Board::from_fen("8/8/8/8/8/8/8 w - - 0 1").is_none());
    // missing sections
    assert!(Board::from_fen("8/8/8/8/8/8/8/8 w - - 0").is_none());
}

#[test]
fn fen_places_pieces() {
    let b = Board::from_fen("4k3/8/8/8/8/8/8/R3K3 w - - 3 1").unwrap();
    assert_eq!(
        b.black_pieces(),
        &vec![piece(PieceType::King, (7, 4), Color::Black)]
    );
    assert_eq!(
        b.white_pieces(),
        &vec![piece(PieceType::Rook, (0, 0), Color::White), piece(PieceType::King, (0, 4), Color::White)]
    );
}

#[test]
fn move_error_messages() {
    assert_eq!(MoveError::OutOfBounds.to_string(), "Move is out of bounds");
    assert_eq!(MoveError::SelfCapture.to_string(), "Can't capture your own piece");
    assert_eq!(MoveError::SelfCheck.to_string(), "Move would result in a check on self");
    assert_eq!(MoveError::NoStartingPiece.to_string(), "No piece at the starting position");
    assert_eq!(MoveError::CapturingEmptySquare.to_string(), "Attempting to capture empty square");
}

#[test]
fn defaults_of_pieces_and_moves() {
    assert_eq!(PieceType::default(), PieceType::Unknown);
    assert_eq!(Color::default(), Color::White);
    assert_eq!(Piece::default(), piece(PieceType::Unknown, (0, 0), Color::White));
    assert_eq!(Move::default(), Move::unknown_move());
}

#[test]
fn duplicate_is_equal() {
    let b = Board::from_fen("4k3/8/8/8/8/8/8/R3K3 b - - 3 2").unwrap();
    let c = b.duplicate();
    assert_eq!(b, c);
    assert_eq!(c.played_moves().len(), 1);
    assert_eq!(c.get_curr_player(), Color::Black);
}

#[test]
fn legal_moves_are_the_accepted_pseudo_legal_moves() {
    let mut b = Board::empty();
    b.add_piece(piece(PieceType::King, (0, 0), Color::White));
    b.add_piece(piece(PieceType::Rook, (0, 1), Color::White));
    b.add_piece(piece(PieceType::Rook, (0, 2), Color::Black));
    b.add_piece(piece(PieceType::King, (0, 3), Color::Black));
    let legal = b.get_legal_moves();
    let mut accepted = Vec::new();
    for p in b.white_pieces().clone() {
        for m in b.get_all_moves_for_piece(p) {
            let mut c = b.clone();
            if c.play_move(m).is_ok() {
                accepted.push(m);
            }
        }
    }
    assert_eq!(legal.len(), accepted.len());
    for m in &accepted {
        assert!(legal.contains(m));
    }
}

#[test]
fn a_fair_move_outside_the_generated_ones_is_played_cleanly() {
    let mut b = Board::empty();
    let k = piece(PieceType::King, (0, 0), Color::White);
    let r = piece(PieceType::Rook, (0, 7), Color::White);
    let bk = piece(PieceType::King, (7, 7), Color::Black);
    let n = piece(PieceType::Knight, (4, 3), Color::Black);
    b.add_piece(k);
    b.add_piece(r);
    b.add_piece(bk);
    b.add_piece(n);
    let before = b.clone();
    // a rook does not move like this, but the move lands on the knight and takes it
    let m = Move { start_piece: r, end_piece: piece(PieceType::Rook, (4, 3), Color::White), captured_piece: Some(n) };
    assert!(!b.get_legal_moves().contains(&m));
    assert!(b.play_move(m).is_ok());
    assert_eq!(b.white_pieces().len(), 2);
    assert!(b.white_pieces().contains(&piece(PieceType::Rook, (4, 3), Color::White)));
    assert!(!b.white_pieces().contains(&r));
    assert_eq!(b.black_pieces().len(), 1);
    assert!(!b.black_pieces().contains(&n));
    // the black king may now step next to nothing but its own corner squares
    assert_eq!(b.get_legal_moves().len(), 3);
    assert!(b.undo_last_move().is_some());
    assert_eq!(b, before);
}

#[test]
fn moves_off_the_board_are_out_of_bounds() {
    let mut b = Board::empty();
    let k = piece(PieceType::King, (0, 7), Color::White);
    b.add_piece(k);
    b.add_piece(piece(PieceType::King, (7, 0), Color::Black));
    let before = b.clone();
    let right = Move { start_piece: k, end_piece: piece(PieceType::King, (0, 8), Color::White), captured_piece: None };
    assert!(matches!(b.play_move(right), Err(MoveError::OutOfBounds)));
    let up = Move { start_piece: k, end_piece: piece(PieceType::King, (8, 7), Color::White), captured_piece: None };
    assert!(matches!(b.play_move(up), Err(MoveError::OutOfBounds)));
    let far = piece(PieceType::Pawn, (9, 1), Color::Black);
    let takes_far = Move { start_piece: k, end_piece: piece(PieceType::King, (1, 7), Color::White), captured_piece: Some(far) };
    assert!(matches!(b.play_move(takes_far), Err(MoveError::OutOfBounds)));
    assert_eq!(b, before);
}

#[test]
fn a_move_of_a_missing_piece_has_no_starting_piece() {
    let mut b = Board::empty();
    let rook = piece(PieceType::Rook, (0, 0), Color::White);
    let m = Move { start_piece: rook, end_piece: piece(PieceType::Rook, (0, 1), Color::White), captured_piece: None };
    assert!(matches!(b.play_move(m), Err(MoveError::NoStartingPiece)));
    assert_eq!(b, Board::empty());
    // a piece of the other side is not the side to play's piece
    b.add_piece(piece(PieceType::Rook, (0, 0), Color::Black));
    let before = b.clone();
    assert!(matches!(b.play_move(m), Err(MoveError::NoStartingPiece)));
    assert_eq!(b, before);
}

#[test]
fn a_move_onto_an_equal_piece_of_its_side_merges_them() {
    let mut b = Board::empty();
    let k = piece(PieceType::King, (7, 7), Color::White);
    let r1 = piece(PieceType::Rook, (0, 0), Color::White);
    let r2 = piece(PieceType::Rook, (0, 5), Color::White);
    b.add_piece(k);
    b.add_piece(r1);
    b.add_piece(r2);
    b.add_piece(piece(PieceType::King, (4, 2), Color::Black));
    let m = Move { start_piece: r1, end_piece: r2, captured_piece: None };
    assert!(b.play_move(m).is_ok());
    assert_eq!(b.white_pieces().len(), 2);
    assert!(b.white_pieces().contains(&r2) && b.white_pieces().contains(&k));
    let mut expected = Board::empty();
    expected.add_piece(k);
    expected.add_piece(r2);
    expected.add_piece(piece(PieceType::King, (4, 2), Color::Black));
    // the same pieces and squares, with Black to play
    let mut probe = expected.clone();
    assert!(probe.play_move(Move { start_piece: k, end_piece: k, captured_piece: None }).is_ok());
    assert_eq!(b.black_pieces(), probe.black_pieces());
    assert_eq!(b.get_legal_moves().len(), probe.get_legal_moves().len());
}
