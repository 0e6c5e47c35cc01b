use anodos::movegen::generate_all_moves;
use anodos::movegen::perft::{has_one_king, is_playable};
use anodos::position::fen::START_POS_FEN;
use anodos::position::Position;
use anodos::rng::XorShift64;

fn parse_fen(fen: &str) -> Position {
    let pos = fen.parse::<Position>();
    assert!(pos.is_ok());
    pos.unwrap()
}

#[test]
fn the_generator_never_draws_zero() {
    let mut rng = XorShift64::new(1);
    for _ in 0..100_000 {
        assert_ne!(rng.next(), Some(0));
    }
}

#[test]
fn the_generator_lists_each_move_once() {
    for fen in [
        START_POS_FEN,
        "r3k2r/p1ppqpb1/bn2pnp1/3PN3/1p2P3/2N2Q1p/PPPBBPPP/R3K2R w KQkq - 0 1",
        "rnbq1k1r/pp1Pbppp/2p5/8/2B5/8/PPP1NnPP/RNBQK2R w KQ - 1 8",
        "8/8/8/2k5/3Pp3/8/8/4K3 b - d3 0 1",
    ] {
        let moves = generate_all_moves(&parse_fen(fen));
        let list = moves.as_slice();
        for (i, a) in list.iter().enumerate() {
            for b in list.iter().skip(i + 1) {
                assert_ne!(a, b);
            }
        }
    }
}

#[test]
fn playable_positions() {
    assert!(is_playable(&parse_fen(START_POS_FEN)));
    // The side that just moved is left in check.
    assert!(!is_playable(&parse_fen("4k3/8/8/8/8/8/4r3/4K3 b - - 0 1")));
    // No white king.
    assert!(!is_playable(&parse_fen("4k3/8/8/8/8/8/8/8 w - - 0 1")));
    // A pawn on the last rank.
    assert!(!is_playable(&parse_fen("P3k3/8/8/8/8/8/8/4K3 w - - 0 1")));
    // A castling right without its rook.
    assert!(!is_playable(&parse_fen("4k3/8/8/8/8/8/8/4K3 w K - 0 1")));
    // An en passant square no pawn passed.
    assert!(!is_playable(&parse_fen("4k3/8/8/8/8/8/8/4K3 w - e6 0 1")));
    assert!(is_playable(&parse_fen("4k3/8/8/4pP2/8/8/8/4K3 w - e6 0 1")));
    assert!(!has_one_king(&parse_fen("4k3/8/8/8/8/8/8/3KK3 w - - 0 1").board, anodos::colour::Colour::White));
}

#[test]
fn boards_read_from_fen_are_consistent() {
    assert!(parse_fen(START_POS_FEN).board.is_consistent());
    assert!(Position::startpos().board.is_consistent());
}

#[test]
fn a_pass_taken_back_restores_the_position() {
    let mut pos = parse_fen("4k3/8/8/4pP2/8/8/8/4K3 w - e6 0 1");
    let before = format!("{:?}", pos);
    let ep = pos.do_null_move();
    assert_eq!(pos.en_passant_square, None);
    assert_eq!(pos.colour_to_move, anodos::colour::Colour::Black);
    pos.undo_null_move(ep);
    assert_eq!(format!("{:?}", pos), before);
}

#[test]
fn fifty_move_and_repetition_draws() {
    assert!(parse_fen("4k3/8/8/8/8/8/8/4K3 w - - 100 80").is_fifty_move_draw());
    assert!(!parse_fen("4k3/8/8/8/8/8/8/4K3 w - - 99 80").is_fifty_move_draw());
    let pos = parse_fen("4k3/8/8/8/8/8/8/4K2N w - - 0 1");
    assert!(!pos.is_repetition_draw(0));
}

#[test]
fn a_copy_is_the_same_position() {
    let pos = parse_fen("r3k2r/p1ppqpb1/bn2pnp1/3PN3/1p2P3/2N2Q1p/PPPBBPPP/R3K2R w KQkq - 0 1");
    assert_eq!(format!("{:?}", pos.duplicate()), format!("{:?}", pos));
}

#[test]
fn a_square_bitboard_has_one_bit_which_is_the_square() {
    for i in 0..64u8 {
        let sq = anodos::square::Square::from_index(i);
        let b = sq.u64();
        assert_eq!(b, 1u64 << i);
        assert_eq!(b.count_ones(), 1);
        assert_eq!(anodos::square::Square::first(b), sq);
        assert_eq!(anodos::square::Square::last(b), sq);
    }
}

#[test]
fn a_stopper_without_limits_never_stops() {
    let stopper = anodos::search::stopper::Stopper::new();
    assert_eq!(stopper.depth, None);
    let mut report = anodos::search::report::Report::new();
    for _ in 0..1000 {
        assert!(!stopper.should_stop(&report));
        report.count_node();
    }
}

#[test]
fn the_board_views_agree_bitwise() {
    let pos = parse_fen("r3k2r/p1ppqpb1/bn2pnp1/3PN3/1p2P3/2N2Q1p/PPPBBPPP/R3K2R w KQkq - 0 1");
    let board = &pos.board;
    let mut white = 0u64;
    let mut black = 0u64;
    for a in anodos::piece::Piece::pieces().iter() {
        for b in anodos::piece::Piece::pieces().iter() {
            if a != b {
                assert_eq!(board.pieces(*a) & board.pieces(*b), 0);
            }
        }
        if a.colour() == anodos::colour::Colour::White {
            white |= board.pieces(*a);
        } else {
            black |= board.pieces(*a);
        }
    }
    assert_eq!(board.pieces_by_colour(anodos::colour::Colour::White), white);
    assert_eq!(board.pieces_by_colour(anodos::colour::Colour::Black), black);
    assert_eq!(white & black, 0);
    for i in 0..64u8 {
        let sq = anodos::square::Square::from_index(i);
        for p in anodos::piece::Piece::pieces().iter() {
            assert_eq!(board.piece_at(sq) == Some(*p), board.pieces(*p) & sq.u64() != 0);
        }
    }
}
