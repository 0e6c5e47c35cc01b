use anodos::colour::Colour;
use anodos::movegen::Move;
use anodos::piece::Piece;
use anodos::position::{CastlingRight, CastlingRights, Position};
use anodos::square::Square;

fn parse_fen(fen: &str) -> Position {
    let pos = fen.parse::<Position>();
    assert!(pos.is_ok());
    pos.unwrap()
}

fn parse_square(name: &str) -> Square {
    let square = name.parse();
    assert!(square.is_ok());
    square.unwrap()
}

#[test]
fn mod_move_a_piece() {
    let mut pos = parse_fen("8/8/8/8/8/8/8/5R2 w - - 0 1");

    let mv = Move {
        piece: Piece::WR,
        from: parse_square("f1"),
        to: parse_square("f4"),
        captured_piece: None,
        promotion_piece: None,
        castling_rights: pos.castling_rights,
        half_move_clock: pos.half_move_clock,
        is_en_passant: false,
    };

    pos.do_move(&mv);

    assert_eq!(pos.board.piece_at(mv.to), Some(Piece::WR));
    assert!(!pos.board.has_piece_at(mv.from));
    assert_eq!(pos.colour_to_move, Colour::Black);
}

#[test]
fn mod_undo_moving_a_piece() {
    let mut pos = parse_fen("8/8/8/8/5R2/8/8/8 b - - 1 1");

    let mv = Move {
        piece: Piece::WR,
        from: parse_square("f1"),
        to: parse_square("f4"),
        captured_piece: None,
        promotion_piece: None,
        castling_rights: CastlingRights::none(),
        half_move_clock: 0,
        is_en_passant: false,
    };

    pos.undo_move(&mv);

    assert_eq!(pos.board.piece_at(mv.from), Some(Piece::WR));
    assert!(!pos.board.has_piece_at(mv.to));
    assert_eq!(pos.colour_to_move, Colour::White);
}

#[test]
fn mod_capture_a_piece() {
    let mut pos = parse_fen("8/8/8/5p2/3N4/8/8/8 w - - 0 1");

    let mv = Move {
        piece: Piece::WN,
        from: parse_square("d4"),
        to: parse_square("f5"),
        captured_piece: Some(Piece::BP),
        promotion_piece: None,
        castling_rights: pos.castling_rights,
        half_move_clock: pos.half_move_clock,
        is_en_passant: false,
    };

    pos.do_move(&mv);

    assert_eq!(pos.board.piece_at(mv.to), Some(Piece::WN));
    assert!(!pos.board.has_piece_at(mv.from));
}

#[test]
fn mod_undo_capturing_a_piece() {
    let mut pos = parse_fen("8/8/8/5N2/8/8/8/8 b - - 1 1");

    let mv = Move {
        piece: Piece::WN,
        from: parse_square("d4"),
        to: parse_square("f5"),
        captured_piece: Some(Piece::BP),
        promotion_piece: None,
        castling_rights: CastlingRights::none(),
        half_move_clock: 0,
        is_en_passant: false,
    };

    pos.undo_move(&mv);

    assert_eq!(pos.board.piece_at(mv.from), Some(Piece::WN));
    assert_eq!(pos.board.piece_at(mv.to), Some(Piece::BP));
}

#[test]
fn mod_castle_king_side() {
    let mut pos = parse_fen("8/8/8/8/8/8/8/4K2R w K - 0 1");

    let mv = Move {
        piece: Piece::WK,
        from: parse_square("e1"),
        to: parse_square("g1"),
        captured_piece: None,
        promotion_piece: None,
        castling_rights: pos.castling_rights,
        half_move_clock: pos.half_move_clock,
        is_en_passant: false,
    };

    pos.do_move(&mv);

    assert_eq!(pos.castling_rights, CastlingRights::none());

    assert_eq!(pos.board.piece_at(mv.to), Some(Piece::WK));
    assert_eq!(pos.board.piece_at(parse_square("f1")), Some(Piece::WR));

    assert!(!pos.board.has_piece_at(mv.from));
    assert!(!pos.board.has_piece_at(parse_square("h1")));
}

#[test]
fn mod_undo_castle_king_side() {
    let mut pos = parse_fen("8/8/8/8/8/8/8/5RK1 b - - 1 1");

    let mv = Move {
        piece: Piece::WK,
        from: parse_square("e1"),
        to: parse_square("g1"),
        captured_piece: None,
        promotion_piece: None,
        castling_rights: CastlingRights::from(&[CastlingRight::WhiteKing]),
        half_move_clock: 0,
        is_en_passant: false,
    };

    pos.undo_move(&mv);

    assert_eq!(pos.castling_rights, CastlingRights::from(&[CastlingRight::WhiteKing]));

    assert_eq!(pos.board.piece_at(mv.from), Some(Piece::WK));
    assert_eq!(pos.board.piece_at(parse_square("h1")), Some(Piece::WR));

    assert!(!pos.board.has_piece_at(mv.to));
    assert!(!pos.board.has_piece_at(parse_square("f1")));
}

#[test]
fn mod_moving_a_rook_removes_the_relevant_castling_rights() {
    let mut pos = parse_fen("8/8/8/8/8/8/8/R3K2R w KQ - 0 1");

    let mv = Move {
        piece: Piece::WR,
        from: parse_square("h1"),
        to: parse_square("g1"),
        captured_piece: None,
        promotion_piece: None,
        castling_rights: CastlingRights::from(&[CastlingRight::WhiteKing, CastlingRight::WhiteQueen]),
        half_move_clock: pos.half_move_clock,
        is_en_passant: false,
    };

    pos.do_move(&mv);

    assert_eq!(pos.castling_rights, CastlingRights::from(&[CastlingRight::WhiteQueen]));
}

#[test]
fn mod_capturing_a_rook_removes_the_relevant_castling_rights() {
    let mut pos = parse_fen("8/8/8/8/3b4/8/8/R3K2R b KQ - 0 1");

    let mv = Move {
        piece: Piece::BB,
        from: parse_square("d4"),
        to: parse_square("a1"),
        captured_piece: Some(Piece::WR),
        promotion_piece: None,
        castling_rights: CastlingRights::from(&[CastlingRight::WhiteKing, CastlingRight::WhiteQueen]),
        half_move_clock: pos.half_move_clock,
        is_en_passant: false,
    };

    pos.do_move(&mv);

    assert_eq!(pos.castling_rights, CastlingRights::from(&[CastlingRight::WhiteKing]));
}

#[test]
fn mod_promote_a_pawn() {
    let mut pos = parse_fen("8/4P3/8/8/8/8/8/8 w - - 0 1");

    let mv = Move {
        piece: Piece::WP,
        from: parse_square("e7"),
        to: parse_square("e8"),
        captured_piece: None,
        promotion_piece: Some(Piece::WN),
        castling_rights: pos.castling_rights,
        half_move_clock: pos.half_move_clock,
        is_en_passant: false,
    };

    pos.do_move(&mv);

    assert_eq!(pos.board.piece_at(mv.to), mv.promotion_piece);
    assert!(!pos.board.has_piece_at(mv.from));
}

#[test]
fn mod_undo_promoting_a_pawn() {
    let mut pos = parse_fen("4N3/8/8/8/8/8/8/8 b - - 0 1");

    let mv = Move {
        piece: Piece::WP,
        from: parse_square("e7"),
        to: parse_square("e8"),
        captured_piece: None,
        promotion_piece: Some(Piece::WN),
        castling_rights: CastlingRights::none(),
        half_move_clock: 1,
        is_en_passant: false,
    };

    pos.undo_move(&mv);

    assert_eq!(pos.board.piece_at(mv.from), Some(Piece::WP));
    assert!(!pos.board.has_piece_at(mv.to));
}

#[test]
fn mod_undo_promoting_a_pawn_with_capture() {
    let mut pos = parse_fen("3B4/8/8/8/8/8/8/8 b - - 0 1");

    let mv = Move {
        piece: Piece::WP,
        from: parse_square("e7"),
        to: parse_square("d8"),
        captured_piece: Some(Piece::BQ),
        promotion_piece: Some(Piece::WB),
        castling_rights: CastlingRights::none(),
        half_move_clock: 1,
        is_en_passant: false,
    };

    pos.undo_move(&mv);

    assert_eq!(pos.board.piece_at(mv.from), Some(Piece::WP));
    assert_eq!(pos.board.piece_at(mv.to), mv.captured_piece);
}

#[test]
fn mod_capture_a_pawn_en_passant() {
    let mut pos = parse_fen("8/8/8/3Pp3/8/8/8/8 w - e6 0 1");

    let mv = Move {
        piece: Piece::WP,
        from: parse_square("d5"),
        to: parse_square("e6"),
        captured_piece: Some(Piece::BP),
        promotion_piece: None,
        castling_rights: pos.castling_rights,
        half_move_clock: pos.half_move_clock,
        is_en_passant: true,
    };

    pos.do_move(&mv);

    assert_eq!(pos.board.piece_at(mv.to), Some(Piece::WP));
    assert!(!pos.board.has_piece_at(parse_square("e5")));
    assert!(!pos.board.has_piece_at(mv.from));
}

#[test]
fn mod_undo_capturing_a_pawn_en_passant() {
    let mut pos = parse_fen("8/8/4P3/8/8/8/8/8 b - - 0 1");

    let mv = Move {
        piece: Piece::WP,
        from: parse_square("d5"),
        to: parse_square("e6"),
        captured_piece: Some(Piece::BP),
        promotion_piece: None,
        castling_rights: CastlingRights::none(),
        half_move_clock: 1,
        is_en_passant: true,
    };

    pos.undo_move(&mv);

    assert_eq!(pos.en_passant_square, Some(mv.to));
    assert_eq!(pos.board.piece_at(mv.from), Some(Piece::WP));
    assert_eq!(pos.board.piece_at(parse_square("e5")), Some(Piece::BP));
    assert!(!pos.board.has_piece_at(mv.to));
}

#[test]
fn mod_set_the_en_passant_square_for_a_white_double_pawn_advance() {
    let mut pos = parse_fen("8/8/8/8/8/8/4P3/8 w - - 0 1");

    let mv = Move {
        piece: Piece::WP,
        from: parse_square("e2"),
        to: parse_square("e4"),
        captured_piece: None,
        promotion_piece: None,
        castling_rights: pos.castling_rights,
        half_move_clock: pos.half_move_clock,
        is_en_passant: false,
    };

    pos.do_move(&mv);

    assert_eq!(pos.en_passant_square, Some(parse_square("e3")));
}

#[test]
fn mod_set_the_en_passant_square_for_a_black_double_pawn_advance() {
    let mut pos = parse_fen("8/4p3/8/8/8/8/8/8 b - - 0 1");

    let mv = Move {
        piece: Piece::BP,
        from: parse_square("e7"),
        to: parse_square("e5"),
        captured_piece: None,
        promotion_piece: None,
        castling_rights: pos.castling_rights,
        half_move_clock: pos.half_move_clock,
        is_en_passant: false,
    };

    pos.do_move(&mv);

    assert_eq!(pos.en_passant_square, Some(parse_square("e6")));
}

#[test]
fn mod_reset_the_en_passant_square_when_undoing_a_double_pawn_advance() {
    let mut pos = parse_fen("8/8/8/8/4P3/8/8/8 b - e3 0 1");

    let mv = Move {
        piece: Piece::WP,
        from: parse_square("e2"),
        to: parse_square("e4"),
        captured_piece: None,
        promotion_piece: None,
        castling_rights: CastlingRights::none(),
        half_move_clock: 1,
        is_en_passant: false,
    };

    pos.undo_move(&mv);

    assert_eq!(pos.en_passant_square, None);
}

#[test]
fn increment_the_half_move_clock_for_non_pawn_or_non_capture_moves() {
    let mut pos = parse_fen("8/4p3/8/8/8/8/4P3/4K3 w - - 0 1");

    let mv = Move {
        piece: Piece::WK,
        from: parse_square("e1"),
        to: parse_square("f2"),
        captured_piece: None,
        promotion_piece: None,
        castling_rights: pos.castling_rights,
        half_move_clock: pos.half_move_clock,
        is_en_passant: false,
    };

    pos.do_move(&mv);

    assert_eq!(pos.half_move_clock, 1);
}

#[test]
fn reset_the_half_move_clock_when_a_pawn_moves() {
    let mut pos = parse_fen("8/4p3/8/8/8/8/4P3/8 w - - 1 1");

    let mv = Move {
        piece: Piece::WP,
        from: parse_square("e2"),
        to: parse_square("e4"),
        captured_piece: None,
        promotion_piece: None,
        castling_rights: pos.castling_rights,
        half_move_clock: pos.half_move_clock,
        is_en_passant: false,
    };

    pos.do_move(&mv);

    assert_eq!(pos.half_move_clock, 0);
}

#[test]
fn reset_the_half_move_clock_when_a_piece_is_captured() {
    let mut pos = parse_fen("8/4p3/8/8/8/8/4Q3/8 w - - 1 1");

    let mv = Move {
        piece: Piece::WQ,
        from: parse_square("e2"),
        to: parse_square("e7"),
        captured_piece: Some(Piece::BP),
        promotion_piece: None,
        castling_rights: pos.castling_rights,
        half_move_clock: pos.half_move_clock,
        is_en_passant: false,
    };

    pos.do_move(&mv);

    assert_eq!(pos.half_move_clock, 0);
}

#[test]
fn increment_the_full_move_counter_when_black_moves() {
    let mut pos = parse_fen("8/4p3/8/8/8/8/4P3/8 w - - 0 1");

    assert_eq!(pos.full_move_counter, 1);

    let mv = Move {
        piece: Piece::WP,
        from: parse_square("e2"),
        to: parse_square("e4"),
        captured_piece: None,
        promotion_piece: None,
        castling_rights: pos.castling_rights,
        half_move_clock: pos.half_move_clock,
        is_en_passant: false,
    };

    pos.do_move(&mv);

    assert_eq!(pos.full_move_counter, 1);

    let mv = Move {
        piece: Piece::BP,
        from: parse_square("e7"),
        to: parse_square("e5"),
        captured_piece: None,
        promotion_piece: None,
        castling_rights: pos.castling_rights,
        half_move_clock: pos.half_move_clock,
        is_en_passant: false,
    };

    pos.do_move(&mv);

    assert_eq!(pos.full_move_counter, 2);
}

#[test]
fn decrement_the_full_move_counter_when_undoing_black_moves() {
    let mut pos = parse_fen("8/8/8/4p3/4P3/8/8/8 w - - 0 2");

    assert_eq!(pos.full_move_counter, 2);

    let mv = Move {
        piece: Piece::BP,
        from: parse_square("e7"),
        to: parse_square("e5"),
        captured_piece: None,
        promotion_piece: None,
        castling_rights: CastlingRights::none(),
        half_move_clock: 0,
        is_en_passant: false,
    };

    pos.undo_move(&mv);

    assert_eq!(pos.full_move_counter, 1);

    let mv = Move {
        piece: Piece::WP,
        from: parse_square("e2"),
        to: parse_square("e4"),
        captured_piece: None,
        promotion_piece: None,
        castling_rights: CastlingRights::none(),
        half_move_clock: 0,
        is_en_passant: false,
    };

    pos.undo_move(&mv);

    assert_eq!(pos.full_move_counter, 1);
}

#[test]
fn detect_threefold_repetition() {
    let positions = [
        Position::startpos(),
        parse_fen("rnbqkbnr/pppppppp/8/8/8/8/PPPPPPPP/RNBQKBNR w KQkq - 60 1"),
    ];

    let moves = [
        (Piece::WN, "g1", "f3"), // Nf3
        (Piece::BN, "g8", "f6"), // Nf6
        (Piece::WN, "f3", "g1"), // Ng1
        (Piece::BN, "f6", "g8"), // Ng8, first repetition
        (Piece::WN, "g1", "f3"), // Nf3
        (Piece::BN, "g8", "f6"), // Nf6
        (Piece::WN, "f3", "g1"), // Ng1
        (Piece::BN, "f6", "g8"), // Ng8, second repetition, threefold
    ];

    for mut pos in positions {
        for (index, (piece, from, to)) in moves.iter().enumerate() {
            let mv = Move {
                piece: *piece,
                from: parse_square(*from),
                to: parse_square(*to),
                captured_piece: None,
                promotion_piece: None,
                castling_rights: pos.castling_rights,
                half_move_clock: pos.half_move_clock,
                is_en_passant: false,
            };

            pos.do_move(&mv);

            let expected_threefold_repetition = index == 7;
            assert_eq!(
                pos.is_threefold_repetition(),
                expected_threefold_repetition,
                "Position should {} a threefold repetition at ply {}",
                if expected_threefold_repetition { "be" } else { "not be" },
                index + 1
            );
        }
    }
}

#[test]
fn threefold_repetition_not_counted_when_castling_rights_differ() {
    let mut pos = Position::startpos();

    let moves = [
        (Piece::WN, "g1", "f3"), // Nf3, the pieces revisit these squares later
        (Piece::BN, "g8", "f6"), // Nf6
        (Piece::WR, "h1", "g1"), // Rg1, removes white king-side castling rights
        (Piece::BN, "f6", "g8"), // Ng8
        (Piece::WR, "g1", "h1"), // Rh1, first repetition of piece placement
        (Piece::BN, "g8", "f6"), // Nf6
        (Piece::WN, "f3", "g1"), // Ng1
        (Piece::BN, "f6", "g8"), // Ng8
        (Piece::WN, "g1", "f3"), // Nf3, second repetition but doesn't count due to castling rights
    ];

    for (index, (piece, from, to)) in moves.iter().enumerate() {
        let mv = Move {
            piece: *piece,
            from: parse_square(*from),
            to: parse_square(*to),
            captured_piece: None,
            promotion_piece: None,
            castling_rights: pos.castling_rights,
            half_move_clock: pos.half_move_clock,
            is_en_passant: false,
        };

        pos.do_move(&mv);

        assert!(
            !pos.is_threefold_repetition(),
            "Position should not be considered a threefold repetition at ply {}",
            index + 1
        );
    }
}

#[test]
fn threefold_repetition_not_counted_when_en_passant_availability_differs() {
    let mut pos = parse_fen("4k3/4p3/8/3P4/8/8/8/4K1Nn w - - 0 1");

    let moves = [
        (Piece::WN, "g1", "f3"), // Nf3
        (Piece::BP, "e7", "e5"), // e5, the pieces revisit these squares later
        (Piece::WN, "f3", "g1"), // Ng1, en passant availability expires
        (Piece::BN, "h1", "g3"), // Ng3
        (Piece::WN, "g1", "f3"), // Nf3
        (Piece::BN, "g3", "h1"), // Nh1, first repetition of piece placement
        (Piece::WN, "f3", "g1"), // Ng1
        (Piece::BN, "h1", "g3"), // Ng3
        (Piece::WN, "g1", "f3"), // Nf3
        (Piece::BN, "g3", "h1"), // Nh1, second repetition but doesn't count due to en passant availability
    ];

    for (index, (piece, from, to)) in moves.iter().enumerate() {
        let mv = Move {
            piece: *piece,
            from: parse_square(*from),
            to: parse_square(*to),
            captured_piece: None,
            promotion_piece: None,
            castling_rights: pos.castling_rights,
            half_move_clock: pos.half_move_clock,
            is_en_passant: false,
        };

        pos.do_move(&mv);

        assert!(
            !pos.is_threefold_repetition(),
            "Position should not be considered a threefold repetition at ply {}",
            index + 1
        );
    }
}

#[test]
fn game_move_a_piece() {
    let mut state = parse_fen("8/8/8/8/8/8/8/5R2 w - - 0 1");

    let mv = Move {
        piece: Piece::WR,
        from: parse_square("f1"),
        to: parse_square("f4"),
        captured_piece: None,
        promotion_piece: None,
        castling_rights: CastlingRights::none(),
        half_move_clock: state.half_move_clock,
        is_en_passant: false,
    };

    state.do_move(&mv);

    assert_eq!(state.board.piece_at(mv.to), Some(Piece::WR));
    assert!(!state.board.has_piece_at(mv.from));
    assert_eq!(state.colour_to_move, Colour::Black);
}

#[test]
fn game_undo_moving_a_piece() {
    let mut state = parse_fen("8/8/8/8/5R2/8/8/8 b - - 0 1");

    let mv = Move {
        piece: Piece::WR,
        from: parse_square("f1"),
        to: parse_square("f4"),
        captured_piece: None,
        promotion_piece: None,
        castling_rights: CastlingRights::none(),
        half_move_clock: state.half_move_clock,
        is_en_passant: false,
    };

    state.undo_move(&mv);

    assert_eq!(state.board.piece_at(mv.from), Some(Piece::WR));
    assert!(!state.board.has_piece_at(mv.to));
    assert_eq!(state.colour_to_move, Colour::White);
}

#[test]
fn game_capture_a_piece() {
    let mut state = parse_fen("8/8/8/5p2/3N4/8/8/8 w - - 0 1");

    let mv = Move {
        piece: Piece::WN,
        from: parse_square("d4"),
        to: parse_square("f5"),
        captured_piece: Some(Piece::BP),
        promotion_piece: None,
        castling_rights: CastlingRights::none(),
        half_move_clock: state.half_move_clock,
        is_en_passant: false,
    };

    state.do_move(&mv);

    assert_eq!(state.board.piece_at(mv.to), Some(Piece::WN));
    assert!(!state.board.has_piece_at(mv.from));
}

#[test]
fn game_undo_capturing_a_piece() {
    let mut state = parse_fen("8/8/8/5N2/8/8/8/8 b - - 0 1");

    let mv = Move {
        piece: Piece::WN,
        from: parse_square("d4"),
        to: parse_square("f5"),
        captured_piece: Some(Piece::BP),
        promotion_piece: None,
        castling_rights: CastlingRights::none(),
        half_move_clock: state.half_move_clock,
        is_en_passant: false,
    };

    state.undo_move(&mv);

    assert_eq!(state.board.piece_at(mv.from), Some(Piece::WN));
    assert_eq!(state.board.piece_at(mv.to), Some(Piece::BP));
}

#[test]
fn game_castle_king_side() {
    let mut state = parse_fen("8/8/8/8/8/8/8/4K2R w K - 0 1");

    let mv = Move {
        piece: Piece::WK,
        from: parse_square("e1"),
        to: parse_square("g1"),
        captured_piece: None,
        promotion_piece: None,
        castling_rights: state.castling_rights,
        half_move_clock: state.half_move_clock,
        is_en_passant: false,
    };

    state.do_move(&mv);

    assert_eq!(state.castling_rights, CastlingRights::none());

    assert_eq!(state.board.piece_at(mv.to), Some(Piece::WK));
    assert_eq!(state.board.piece_at(parse_square("f1")), Some(Piece::WR));

    assert!(!state.board.has_piece_at(mv.from));
    assert!(!state.board.has_piece_at(parse_square("h1")));
}

#[test]
fn game_undo_castle_king_side() {
    let mut state = parse_fen("8/8/8/8/8/8/8/5RK1 b - - 0 1");

    let mv = Move {
        piece: Piece::WK,
        from: parse_square("e1"),
        to: parse_square("g1"),
        captured_piece: None,
        promotion_piece: None,
        castling_rights: CastlingRights::from(&[CastlingRight::WhiteKing]),
        half_move_clock: state.half_move_clock,
        is_en_passant: false,
    };

    state.undo_move(&mv);

    assert_eq!(state.castling_rights, CastlingRights::from(&[CastlingRight::WhiteKing]));

    assert_eq!(state.board.piece_at(mv.from), Some(Piece::WK));
    assert_eq!(state.board.piece_at(parse_square("h1")), Some(Piece::WR));

    assert!(!state.board.has_piece_at(mv.to));
    assert!(!state.board.has_piece_at(parse_square("f1")));
}

#[test]
fn game_moving_a_rook_removes_the_relevant_castling_rights() {
    let mut state = parse_fen("8/8/8/8/8/8/8/R3K2R w KQ - 0 1");

    let mv = Move {
        piece: Piece::WR,
        from: parse_square("h1"),
        to: parse_square("g1"),
        captured_piece: None,
        promotion_piece: None,
        castling_rights: CastlingRights::from(&[CastlingRight::WhiteKing, CastlingRight::WhiteQueen]),
        half_move_clock: state.half_move_clock,
        is_en_passant: false,
    };

    state.do_move(&mv);

    assert_eq!(
        state.castling_rights,
        CastlingRights::from(&[CastlingRight::WhiteQueen])
    );
}

#[test]
fn game_capturing_a_rook_removes_the_relevant_castling_rights() {
    let mut state = parse_fen("8/8/8/8/3b4/8/8/R3K2R b KQ - 0 1");

    let mv = Move {
        piece: Piece::BB,
        from: parse_square("d4"),
        to: parse_square("a1"),
        captured_piece: Some(Piece::WR),
        promotion_piece: None,
        castling_rights: CastlingRights::from(&[CastlingRight::WhiteKing, CastlingRight::WhiteQueen]),
        half_move_clock: state.half_move_clock,
        is_en_passant: false,
    };

    state.do_move(&mv);

    assert_eq!(state.castling_rights, CastlingRights::from(&[CastlingRight::WhiteKing]));
}

#[test]
fn game_promote_a_pawn() {
    let mut state = parse_fen("8/4P3/8/8/8/8/8/8 w - - 0 1");

    let mv = Move {
        piece: Piece::WP,
        from: parse_square("e7"),
        to: parse_square("e8"),
        captured_piece: None,
        promotion_piece: Some(Piece::WN),
        castling_rights: CastlingRights::none(),
        half_move_clock: state.half_move_clock,
        is_en_passant: false,
    };

    state.do_move(&mv);

    assert_eq!(state.board.piece_at(mv.to), mv.promotion_piece);
    assert!(!state.board.has_piece_at(mv.from));
}

#[test]
fn game_undo_promoting_a_pawn() {
    let mut state = parse_fen("4N3/8/8/8/8/8/8/8 b - - 0 1");

    let mv = Move {
        piece: Piece::WP,
        from: parse_square("e7"),
        to: parse_square("e8"),
        captured_piece: None,
        promotion_piece: Some(Piece::WN),
        castling_rights: CastlingRights::none(),
        half_move_clock: state.half_move_clock,
        is_en_passant: false,
    };

    state.undo_move(&mv);

    assert_eq!(state.board.piece_at(mv.from), Some(Piece::WP));
    assert!(!state.board.has_piece_at(mv.to));
}

#[test]
fn game_undo_promoting_a_pawn_with_capture() {
    let mut state = parse_fen("3B4/8/8/8/8/8/8/8 b - - 0 1");

    let mv = Move {
        piece: Piece::WP,
        from: parse_square("e7"),
        to: parse_square("d8"),
        captured_piece: Some(Piece::BQ),
        promotion_piece: Some(Piece::WB),
        castling_rights: CastlingRights::none(),
        half_move_clock: state.half_move_clock,
        is_en_passant: false,
    };

    state.undo_move(&mv);

    assert_eq!(state.board.piece_at(mv.from), Some(Piece::WP));
    assert_eq!(state.board.piece_at(mv.to), mv.captured_piece);
}

#[test]
fn game_capture_a_pawn_en_passant() {
    let mut state = parse_fen("8/8/8/3Pp3/8/8/8/8 w - e6 0 1");

    let mv = Move {
        piece: Piece::WP,
        from: parse_square("d5"),
        to: parse_square("e6"),
        captured_piece: Some(Piece::BP),
        promotion_piece: None,
        castling_rights: CastlingRights::none(),
        half_move_clock: state.half_move_clock,
        is_en_passant: true,
    };

    state.do_move(&mv);

    assert_eq!(state.board.piece_at(mv.to), Some(Piece::WP));
    assert!(!state.board.has_piece_at(parse_square("e5")));
    assert!(!state.board.has_piece_at(mv.from));
}

#[test]
fn game_undo_capturing_a_pawn_en_passant() {
    let mut state = parse_fen("8/8/4P3/8/8/8/8/8 b - - 0 1");

    let mv = Move {
        piece: Piece::WP,
        from: parse_square("d5"),
        to: parse_square("e6"),
        captured_piece: Some(Piece::BP),
        promotion_piece: None,
        castling_rights: CastlingRights::none(),
        half_move_clock: state.half_move_clock,
        is_en_passant: true,
    };

    state.undo_move(&mv);

    assert_eq!(state.en_passant_square, Some(mv.to));
    assert_eq!(state.board.piece_at(mv.from), Some(Piece::WP));
    assert_eq!(state.board.piece_at(parse_square("e5")), Some(Piece::BP));
    assert!(!state.board.has_piece_at(mv.to));
}

#[test]
fn game_set_the_en_passant_square_for_a_white_double_pawn_advance() {
    let mut state = parse_fen("8/8/8/8/8/8/4P3/8 w - - 0 1");

    let mv = Move {
        piece: Piece::WP,
        from: parse_square("e2"),
        to: parse_square("e4"),
        captured_piece: None,
        promotion_piece: None,
        castling_rights: CastlingRights::none(),
        half_move_clock: state.half_move_clock,
        is_en_passant: false,
    };

    state.do_move(&mv);

    assert_eq!(state.en_passant_square, Some(parse_square("e3")));
}

#[test]
fn game_set_the_en_passant_square_for_a_black_double_pawn_advance() {
    let mut state = parse_fen("8/4p3/8/8/8/8/8/8 b - - 0 1");

    let mv = Move {
        piece: Piece::BP,
        from: parse_square("e7"),
        to: parse_square("e5"),
        captured_piece: None,
        promotion_piece: None,
        castling_rights: CastlingRights::none(),
        half_move_clock: state.half_move_clock,
        is_en_passant: false,
    };

    state.do_move(&mv);

    assert_eq!(state.en_passant_square, Some(parse_square("e6")));
}

#[test]
fn game_reset_the_en_passant_square_when_undoing_a_double_pawn_advance() {
    let mut state = parse_fen("8/8/8/8/4P3/8/8/8 b - e3 0 1");

    let mv = Move {
        piece: Piece::WP,
        from: parse_square("e2"),
        to: parse_square("e4"),
        captured_piece: None,
        promotion_piece: None,
        castling_rights: CastlingRights::none(),
        half_move_clock: state.half_move_clock,
        is_en_passant: false,
    };

    state.undo_move(&mv);

    assert_eq!(state.en_passant_square, None);
}

#[test]
fn test_do_move() {
    let fen = "rnbqkbnr/pppppppp/8/8/8/8/PPPPPPPP/RNBQKBNR w KQkq - 0 1";
    let mut state: Position = fen.parse().unwrap();

    let mv = Move {
        piece: Piece::WP,
        from: "e2".parse::<Square>().unwrap(),
        to: "e4".parse::<Square>().unwrap(),
        captured_piece: None,
        promotion_piece: None,
        castling_rights: state.castling_rights,
        half_move_clock: state.half_move_clock,
        is_en_passant: false,
    };

    assert_eq!(state.board.piece_at(mv.from), Some(Piece::WP));

    state.do_move(&mv);

    assert_eq!(state.board.piece_at(mv.to), Some(Piece::WP));
    assert!(!state.board.has_piece_at(mv.from));
}

#[test]
fn test_undo_move() {
    let fen = "rnbqkbnr/pppppppp/8/8/4P3/8/PPPP1PPP/RNBQKBNR w KQkq - 0 1";
    let mut state: Position = fen.parse().unwrap();

    let mv = Move {
        piece: Piece::WP,
        from: "e2".parse::<Square>().unwrap(),
        to: "e4".parse::<Square>().unwrap(),
        captured_piece: None,
        promotion_piece: None,
        castling_rights: state.castling_rights,
        half_move_clock: state.half_move_clock,
        is_en_passant: false,
    };

    assert_eq!(state.board.piece_at(mv.to), Some(Piece::WP));

    state.undo_move(&mv);

    assert_eq!(state.board.piece_at(mv.from), Some(Piece::WP));
    assert!(!state.board.has_piece_at(mv.to));
}
