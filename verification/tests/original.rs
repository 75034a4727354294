use chess::bitboard::Bitboard;
use chess::board::Board;
use chess::piece::{Color, Piece, PieceType};

#[test]
fn test_bitboard() {
    let mut b = Bitboard::default();
    b.set((0, 0));
    b.clear((0, 0));
    assert_eq!(b, Bitboard::default());
}

#[test]
fn generating_correct_rook_moves() {
    let mut b = Board::empty();

    let p1 = Piece {
        pos: (0, 0),
        tp: PieceType::Rook,
        col: Color::White,
    };
    b.add_piece(p1);
    assert_eq!(b.get_rook_moves(p1).len(), 14);
    b.add_piece(Piece {
        tp: PieceType::Knight,
        pos: (0, 1),
        col: Color::White,
    });
    assert_eq!(b.get_rook_moves(p1).len(), 7);
    b.add_piece(Piece {
        tp: PieceType::Knight,
        pos: (2, 0),
        col: Color::White,
    });
    assert_eq!(b.get_rook_moves(p1).len(), 1);
    b.add_piece(Piece {
        tp: PieceType::Knight,
        pos: (1, 0),
        col: Color::White,
    });
    assert_eq!(b.get_rook_moves(p1).len(), 0);
}

#[test]
fn generating_correct_bishop_moves() {
    let mut b = Board::empty();

    let white_bishop = Piece {
        pos: (0, 0),
        tp: PieceType::Bishop,
        col: Color::White,
    };
    b.add_piece(white_bishop);
    assert_eq!(b.get_bishop_moves(white_bishop).len(), 7);
    b.add_piece(Piece {
        tp: PieceType::Knight,
        pos: (3, 3),
        col: Color::Black,
    });
    assert_eq!(b.get_bishop_moves(white_bishop).len(), 3);
    assert!(b
        .get_bishop_moves(white_bishop)
        .iter()
        .any(|x| x.captured_piece.is_some()));
    b.add_piece(Piece {
        tp: PieceType::Knight,
        pos: (1, 1),
        col: Color::White,
    });
    assert_eq!(b.get_bishop_moves(white_bishop).len(), 0);
    b = Board::empty();

    let white_bishop = Piece {
        pos: (1, 2),
        tp: PieceType::Bishop,
        col: Color::White,
    };
    b.add_piece(white_bishop);
    assert_eq!(b.get_bishop_moves(white_bishop).len(), 9);
}

#[test]
fn generating_correct_king_moves() {
    let mut b = Board::empty();
    let p1 = Piece {
        tp: PieceType::King,
        pos: (1, 1),
        col: Color::White,
    };
    b.add_piece(p1);
    assert_eq!(b.get_king_moves(p1).len(), 8);
    b.add_piece(Piece {
        tp: PieceType::Bishop,
        pos: (1, 2),
        col: Color::Black,
    });
    assert_eq!(b.get_king_moves(p1).len(), 8);
    assert_eq!(b.get_legal_moves().len(), 6); // the bishop blocks two squares
    b.add_piece(Piece {
        tp: PieceType::Bishop,
        pos: (2, 1),
        col: Color::White,
    });
    assert_eq!(b.get_king_moves(p1).len(), 7);
}

#[test]
fn generating_correct_knight_moves() {
    let mut b = Board::empty();
    let p1 = Piece {
        tp: PieceType::Knight,
        pos: (4, 4),
        col: Color::White,
    };
    b.add_piece(p1);
    assert_eq!(b.get_all_moves_for_piece(p1).len(), 8);
    b.add_piece(Piece {
        tp: PieceType::Bishop,
        pos: (5, 6),
        col: Color::White,
    });
    assert_eq!(b.get_all_moves_for_piece(p1).len(), 7);
    b.add_piece(Piece {
        tp: PieceType::Bishop,
        pos: (6, 5),
        col: Color::Black,
    });
    assert_eq!(b.get_all_moves_for_piece(p1).len(), 7);
    assert!(b
        .get_all_moves_for_piece(p1)
        .iter()
        .any(|m| m.captured_piece.is_some()));
}

#[test]
fn generating_correct_pawn_moves() {
    let mut b = Board::empty();
    let p1 = Piece {
        tp: PieceType::Pawn,
        pos: (1, 0),
        col: Color::White,
    };
    b.add_piece(p1);
    assert_eq!(b.get_all_moves_for_piece(p1).len(), 2);
    for m in b.get_all_moves_for_piece(p1) {
        let _ = b.play_move(m);
        assert_eq!(
            b.get_all_moves_for_piece(*b.white_pieces().iter().next().unwrap())
                .len(),
            1
        );
        b.undo_last_move();
    }
}

#[test]
fn basic_undo() {
    let mut b = Board::empty();
    b.add_piece(Piece {
        tp: PieceType::King,
        pos: (0, 0),
        col: Color::White,
    });
    b.add_piece(Piece {
        tp: PieceType::Bishop,
        pos: (0, 1),
        col: Color::White,
    });

    let mut cp = b.clone();
    for mv in b.get_legal_moves() {
        let _ = cp.play_move(mv);
        cp.undo_last_move().unwrap();
        assert_eq!(cp, b);
    }
}

#[test]
fn undo_possible_capture() {
    let mut b = Board::empty();
    b.add_piece(Piece {
        tp: PieceType::King,
        pos: (0, 0),
        col: Color::White,
    });
    b.add_piece(Piece {
        tp: PieceType::Bishop,
        pos: (0, 1),
        col: Color::Black,
    });

    let mut cp = b.clone();
    for mv in b.get_legal_moves() {
        let _ = cp.play_move(mv);
        cp.undo_last_move().unwrap();
        assert_eq!(cp, b);
    }
}

#[test]
fn basic_discoveries() {
    let mut b = Board::empty();
    let white_king = Piece {
        tp: PieceType::King,
        pos: (0, 0),
        col: Color::White,
    };
    b.add_piece(white_king);
    let white_rook = Piece {
        tp: PieceType::Rook,
        pos: (0, 1),
        col: Color::White,
    };
    b.add_piece(white_rook);
    b.add_piece(Piece {
        tp: PieceType::Rook,
        pos: (0, 2),
        col: Color::Black,
    });
    b.add_piece(Piece {
        tp: PieceType::King,
        pos: (0, 3),
        col: Color::Black,
    });

    assert_eq!(b.get_king_moves(white_king).len(), 2);
    assert_eq!(b.get_rook_moves(white_rook).len(), 8);
    assert_eq!(b.get_legal_moves().len(), 3);
}

#[test]
fn rejecting_obviously_wrong_fen() {
    assert!(Board::from_fen("").is_none());
    assert!(Board::from_fen("a").is_none());
    assert!(Board::from_fen("/////// - - 0 1").is_none());
    assert!(Board::from_fen("8/8/8/8/8/8/8/ w - 0 1").is_none());
}

#[test]
fn accepting_correct_fen() {
    assert_eq!(
        Board::from_fen("8/8/8/8/8/8/8/8 w - - 0 1").unwrap(),
        Board::empty()
    );
}

#[test]
fn correct_default_position() {
    let mut b = Board::empty();
    b.add_piece(Piece {
        tp: PieceType::Rook,
        pos: (0, 0),
        col: Color::White,
    });
    b.add_piece(Piece {
        tp: PieceType::Rook,
        pos: (0, 7),
        col: Color::White,
    });
    b.add_piece(Piece {
        tp: PieceType::Knight,
        pos: (0, 1),
        col: Color::White,
    });
    b.add_piece(Piece {
        tp: PieceType::Knight,
        pos: (0, 6),
        col: Color::White,
    });
    b.add_piece(Piece {
        tp: PieceType::Bishop,
        pos: (0, 2),
        col: Color::White,
    });
    b.add_piece(Piece {
        tp: PieceType::Bishop,
        pos: (0, 5),
        col: Color::White,
    });
    b.add_piece(Piece {
        tp: PieceType::Queen,
        pos: (0, 3),
        col: Color::White,
    });
    b.add_piece(Piece {
        tp: PieceType::King,
        pos: (0, 4),
        col: Color::White,
    });

    b.add_piece(Piece {
        tp: PieceType::Rook,
        pos: (7, 0),
        col: Color::Black,
    });
    b.add_piece(Piece {
        tp: PieceType::Rook,
        pos: (7, 7),
        col: Color::Black,
    });
    b.add_piece(Piece {
        tp: PieceType::Knight,
        pos: (7, 1),
        col: Color::Black,
    });
    b.add_piece(Piece {
        tp: PieceType::Knight,
        pos: (7, 6),
        col: Color::Black,
    });
    b.add_piece(Piece {
        tp: PieceType::Bishop,
        pos: (7, 2),
        col: Color::Black,
    });
    b.add_piece(Piece {
        tp: PieceType::Bishop,
        pos: (7, 5),
        col: Color::Black,
    });
    b.add_piece(Piece {
        tp: PieceType::Queen,
        pos: (7, 3),
        col: Color::Black,
    });
    b.add_piece(Piece {
        tp: PieceType::King,
        pos: (7, 4),
        col: Color::Black,
    });

    for i in 0..8 {
        b.add_piece(Piece {
            tp: PieceType::Pawn,
            pos: (1, i),
            col: Color::White,
        });
        b.add_piece(Piece {
            tp: PieceType::Pawn,
            pos: (6, i),
            col: Color::Black,
        });
    }

    assert_eq!(b, Board::default());
    assert_eq!(b.get_legal_moves().len(), 20);
}
