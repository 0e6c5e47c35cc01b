use anodos::movegen::perft::{divide, perft};
use anodos::position::fen::START_POS_FEN;
use anodos::position::Position;

fn parse_fen(fen: &str) -> Position {
    let pos = fen.parse::<Position>();
    assert!(pos.is_ok());
    pos.unwrap()
}

fn assert_perft(fen: &str, depth: u8, expected_move_count: u128) {
    assert_eq!(perft(&mut parse_fen(fen), depth), expected_move_count);
}

#[test]
fn movegen_perft_start_position_shallow() {
    assert_perft(START_POS_FEN, 4, 197_281);
}

#[test]
fn mod_perft_start_position_shallow() {
    assert_perft(START_POS_FEN, 4, 197_281);
}

#[test]
fn perft_perft_start_position_shallow() {
    assert_perft(START_POS_FEN, 4, 197_281);
}

#[test]
fn test_perft_starting_position_depth_3() {
    assert_perft("rnbqkbnr/pppppppp/8/8/8/8/PPPPPPPP/RNBQKBNR w KQkq - 0 1", 3, 8902);
}

#[test]
fn perft_depth_zero_is_one_leaf() {
    assert_perft(START_POS_FEN, 0, 1);
}

#[test]
fn perft_start_position_first_plies() {
    assert_perft(START_POS_FEN, 1, 20);
    assert_perft(START_POS_FEN, 2, 400);
}

#[test]
fn perft_position_2_shallow() {
    assert_perft(
        "r3k2r/p1ppqpb1/bn2pnp1/3PN3/1p2P3/2N2Q1p/PPPBBPPP/R3K2R w KQkq - 0 1",
        2,
        2039,
    );
}

#[test]
fn perft_position_3_shallow() {
    assert_perft("8/2p5/3p4/KP5r/1R3p1k/8/4P1P1/8 w - - 0 1", 3, 2812);
}

#[test]
fn perft_position_4_shallow() {
    assert_perft(
        "r3k2r/Pppp1ppp/1b3nbN/nP6/BBP1P3/q4N2/Pp1P2PP/R2Q1RK1 w kq - 0 1",
        2,
        264,
    );
    assert_perft(
        "r2q1rk1/pP1p2pp/Q4n2/bbp1p3/Np6/1B3NBn/pPPP1PPP/R3K2R b KQ - 0 1",
        2,
        264,
    );
}

#[test]
fn perft_position_5_shallow() {
    assert_perft("rnbq1k1r/pp1Pbppp/2p5/8/2B5/8/PPP1NnPP/RNBQK2R w KQ - 1 8", 2, 1486);
}

#[test]
fn perft_position_6_shallow() {
    assert_perft(
        "r4rk1/1pp1qppp/p1np1n2/2b1p1B1/2B1P1b1/P1NP1N2/1PP1QPPP/R4RK1 w - - 0 10",
        2,
        2079,
    );
}

#[test]
fn perft_leaves_the_position_as_it_was() {
    let mut pos = parse_fen("r3k2r/p1ppqpb1/bn2pnp1/3PN3/1p2P3/2N2Q1p/PPPBBPPP/R3K2R w KQkq - 0 1");
    let before = format!("{:?}", pos);
    assert_eq!(perft(&mut pos, 2), 2039);
    assert_eq!(format!("{:?}", pos), before);
}

#[test]
fn divide_start_position() {
    let mut pos = parse_fen(START_POS_FEN);
    let (total, lines) = divide(&mut pos, 2);
    assert_eq!(total, 400);
    assert_eq!(lines.len(), 20);
    for (_, count) in lines.iter() {
        assert_eq!(*count, 20);
    }
}

#[test]
fn divide_depth_zero_lists_nothing() {
    let mut pos = parse_fen(START_POS_FEN);
    let (total, lines) = divide(&mut pos, 0);
    assert_eq!(total, 1);
    assert!(lines.is_empty());
}
