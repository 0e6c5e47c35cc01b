use anodos::colour::Colour;
use anodos::movegen::attacks::{get_attackers, get_attacks, is_in_check};
use anodos::piece::Piece;
use anodos::position::{Board, Position};
use anodos::square::Square;

fn sq(name: &str) -> Square {
    name.parse::<Square>().unwrap()
}

fn parse_fen(fen: &str) -> Position {
    let pos = fen.parse::<Position>();
    assert!(pos.is_ok());
    pos.unwrap()
}

fn assert_attacks_eq(pos: &Position, attacker: &str, squares: &[&str]) {
    let attacks: u64 = squares.iter().map(|name| sq(name).u64()).sum();
    let square = sq(attacker);
    let piece = pos.board.piece_at(square).unwrap();

    assert_eq!(attacks, get_attacks(piece, square, &pos.board));
}

#[test]
fn attacks_test_it_can_detect_check() {
    let mut board = Board::empty();
    board.put_piece(Piece::BK, sq("e8"));
    board.put_piece(Piece::WN, sq("d6"));

    assert!(is_in_check(Colour::Black, &board));
}

#[test]
fn test_attack_by_queen() {
    let fen = "4k3/8/8/8/4Q3/8/8/8 w - - 0 1";
    let state = parse_fen(fen);

    assert_eq!(
        get_attackers(sq("e8"), Colour::White, &state.board),
        sq("e4").u64()
    );
}

#[test]
fn test_attack_by_queen_diagonal() {
    let fen = "4k3/8/8/8/Q7/8/8/8 w - - 0 1";
    let state = parse_fen(fen);

    assert_eq!(
        get_attackers(sq("e8"), Colour::White, &state.board),
        sq("a4").u64()
    );
}

#[test]
fn attacks_test_white_pawn_attacks_none() {
    let fen = "8/8/8/8/8/8/4P3/8 w - - 0 1";
    let state = parse_fen(fen);

    assert_attacks_eq(&state, "e2", &[]);
}

#[test]
fn attacks_test_white_pawn_attacks_left() {
    let fen = "8/8/8/8/8/3p4/4P3/8 w - - 0 1";
    let state = parse_fen(fen);

    assert_attacks_eq(&state, "e2", &["d3"]);
}

#[test]
fn attacks_test_white_pawn_attacks_right() {
    let fen = "8/8/8/8/8/5p2/4P3/8 w - - 0 1";
    let state = parse_fen(fen);

    assert_attacks_eq(&state, "e2", &["f3"]);
}

#[test]
fn attacks_test_white_pawn_attacks_left_and_right() {
    let fen = "8/8/8/8/8/3p1p2/4P3/8 w - - 0 1";
    let state = parse_fen(fen);

    assert_attacks_eq(&state, "e2", &["d3", "f3"]);
}

#[test]
fn attacks_test_black_pawn_attacks_none() {
    let fen = "8/4p3/8/8/8/8/8/8 b - - 0 1";
    let state = parse_fen(fen);

    assert_attacks_eq(&state, "e7", &[]);
}

#[test]
fn attacks_test_black_pawn_attacks_left() {
    let fen = "8/4p3/3P4/8/8/8/8/8 b - - 0 1";
    let state = parse_fen(fen);

    assert_attacks_eq(&state, "e7", &["d6"]);
}

#[test]
fn attacks_test_black_pawn_attacks_right() {
    let fen = "8/4p3/5P2/8/8/8/8/8 b - - 0 1";
    let state = parse_fen(fen);

    assert_attacks_eq(&state, "e7", &["f6"]);
}

#[test]
fn attacks_test_black_pawn_attacks_left_and_right() {
    let fen = "8/4p3/3P1P2/8/8/8/8/8 b - - 0 1";
    let state = parse_fen(fen);

    assert_attacks_eq(&state, "e7", &["d6", "f6"]);
}

#[test]
fn attacks_test_knight_attacks() {
    let fen = "8/8/8/8/3N4/8/8/8 w - - 0 1";
    let state = parse_fen(fen);

    assert_attacks_eq(&state, "d4", &["c2", "e2", "b3", "f3", "b5", "f5", "c6", "e6"]);
}

#[test]
fn attacks_test_bishop_attacks_on_empty_board() {
    let fen = "8/8/8/8/3b4/8/8/8 b - - 0 1";
    let state = parse_fen(fen);

    assert_attacks_eq(
        &state,
        "d4",
        &[
            "a1", "g1", "b2", "f2", "c3", "e3", "c5", "e5", "b6", "f6", "a7", "g7", "h8",
        ],
    );
}

#[test]
fn test_bishop_attacks_with_up_left_blocker() {
    let fen = "8/8/2n5/8/8/8/6B1/8 w - - 0 1";
    let state = parse_fen(fen);

    assert_attacks_eq(&state, "g2", &["h1", "h3", "f1", "f3", "e4", "d5", "c6"]);
}

#[test]
fn test_bishop_attacks_with_up_right_blocker() {
    let fen = "8/8/5n2/8/8/8/1B6/8 w - - 0 1";
    let state = parse_fen(fen);

    assert_attacks_eq(&state, "b2", &["a1", "a3", "c1", "c3", "d4", "e5", "f6"]);
}

#[test]
fn test_bishop_attacks_with_down_left_blocker() {
    let fen = "8/8/8/4B3/3n4/8/8/8 w - - 0 1";
    let state = parse_fen(fen);

    assert_attacks_eq(
        &state,
        "e5",
        &["h8", "g7", "f6", "d4", "f4", "g3", "h2", "d6", "c7", "b8"],
    );
}

#[test]
fn test_bishop_attacks_with_down_right_blocker() {
    let fen = "8/8/8/3b4/8/5N2/8/8 w - - 0 1";
    let state = parse_fen(fen);

    assert_attacks_eq(
        &state,
        "d5",
        &["a8", "b7", "c6", "e6", "f7", "g8", "c4", "b3", "a2", "e4", "f3"],
    );
}

#[test]
fn test_rook_attacks_on_empty_board() {
    let fen = "8/8/8/8/3r4/8/8/8 b - - 0 1";
    let state = parse_fen(fen);

    assert_attacks_eq(
        &state,
        "d4",
        &[
            "d1", "d2", "d3", "d5", "d6", "d7", "d8", "a4", "b4", "c4", "e4", "f4", "g4", "h4",
        ],
    );
}

#[test]
fn test_rook_attacks_with_up_blocker() {
    let fen = "8/8/8/3N4/8/8/8/3r4 b - - 0 1";
    let state = parse_fen(fen);

    assert_attacks_eq(
        &state,
        "d1",
        &["d2", "d3", "d4", "d5", "a1", "b1", "c1", "e1", "f1", "g1", "h1"],
    );
}

#[test]
fn test_rook_attacks_with_right_blocker() {
    let fen = "8/8/8/r2N4/8/8/8/8 b - - 0 1";
    let state = parse_fen(fen);

    assert_attacks_eq(
        &state,
        "a5",
        &["b5", "c5", "d5", "a6", "a7", "a8", "a4", "a3", "a2", "a1"],
    );
}

#[test]
fn test_rook_attacks_with_left_blocker() {
    let fen = "8/8/8/3N3r/8/8/8/8 b - - 0 1";
    let state = parse_fen(fen);

    assert_attacks_eq(
        &state,
        "h5",
        &["g5", "f5", "e5", "d5", "h6", "h7", "h8", "h4", "h3", "h2", "h1"],
    );
}

#[test]
fn test_rook_attacks_with_down_blocker() {
    let fen = "3r4/8/8/3N4/8/8/8/8 b - - 0 1";
    let state = parse_fen(fen);

    assert_attacks_eq(
        &state,
        "d8",
        &["d7", "d6", "d5", "a8", "b8", "c8", "e8", "f8", "g8", "h8"],
    );
}

#[test]
fn attacks_test_king_attacks() {
    let fen = "8/8/8/8/8/8/8/4K3 w - - 0 1";
    let state = parse_fen(fen);

    assert_attacks_eq(&state, "e1", &["d1", "f1", "d2", "e2", "f2"]);
}

#[test]
fn detect_check() {
    let mut board = Board::empty();
    board.put_piece(Piece::BK, sq("e8"));
    board.put_piece(Piece::WN, sq("d6"));

    assert!(is_in_check(Colour::Black, &board));
}

#[test]
fn attack_by_queen_horizontal() {
    let pos = parse_fen("Q3k3/8/8/8/8/8/8/8 w - - 0 1");

    assert_eq!(get_attackers(sq("e8"), Colour::White, &pos.board), sq("a8").u64());
}

#[test]
fn attack_by_queen_vertical() {
    let pos = parse_fen("4k3/8/8/8/4Q3/8/8/8 w - - 0 1");

    assert_eq!(get_attackers(sq("e8"), Colour::White, &pos.board), sq("e4").u64());
}

#[test]
fn attack_by_queen_diagonal() {
    let pos = parse_fen("4k3/8/8/8/Q7/8/8/8 w - - 0 1");

    assert_eq!(get_attackers(sq("e8"), Colour::White, &pos.board), sq("a4").u64());
}

#[test]
fn en_passant_attackers_are_the_pawns_beside() {
    let pos = parse_fen("8/8/8/3PpP2/8/8/8/8 w - e6 0 1");

    assert_eq!(
        anodos::movegen::attacks::get_en_passant_attacks(sq("e6"), Colour::White, &pos.board),
        sq("d5").u64() | sq("f5").u64()
    );
}

#[test]
fn white_pawn_attacks_none() {
    let pos = parse_fen("8/8/8/8/8/8/4P3/8 w - - 0 1");

    assert_attacks_eq(&pos, "e2", &[]);
}

#[test]
fn white_pawn_attacks_left() {
    let pos = parse_fen("8/8/8/8/8/3p4/4P3/8 w - - 0 1");

    assert_attacks_eq(&pos, "e2", &["d3"]);
}

#[test]
fn white_pawn_attacks_right() {
    let pos = parse_fen("8/8/8/8/8/5p2/4P3/8 w - - 0 1");

    assert_attacks_eq(&pos, "e2", &["f3"]);
}

#[test]
fn white_pawn_attacks_left_and_right() {
    let pos = parse_fen("8/8/8/8/8/3p1p2/4P3/8 w - - 0 1");

    assert_attacks_eq(&pos, "e2", &["d3", "f3"]);
}

#[test]
fn black_pawn_attacks_none() {
    let pos = parse_fen("8/4p3/8/8/8/8/8/8 b - - 0 1");

    assert_attacks_eq(&pos, "e7", &[]);
}

#[test]
fn black_pawn_attacks_left() {
    let pos = parse_fen("8/4p3/3P4/8/8/8/8/8 b - - 0 1");

    assert_attacks_eq(&pos, "e7", &["d6"]);
}

#[test]
fn black_pawn_attacks_right() {
    let pos = parse_fen("8/4p3/5P2/8/8/8/8/8 b - - 0 1");

    assert_attacks_eq(&pos, "e7", &["f6"]);
}

#[test]
fn black_pawn_attacks_left_and_right() {
    let pos = parse_fen("8/4p3/3P1P2/8/8/8/8/8 b - - 0 1");

    assert_attacks_eq(&pos, "e7", &["d6", "f6"]);
}

#[test]
fn knight_attacks() {
    let pos = parse_fen("8/8/8/8/3N4/8/8/8 w - - 0 1");

    assert_attacks_eq(&pos, "d4", &["c2", "e2", "b3", "f3", "b5", "f5", "c6", "e6"]);
}

#[test]
fn bishop_attacks_on_empty_board() {
    let pos = parse_fen("8/8/8/8/3b4/8/8/8 b - - 0 1");

    assert_attacks_eq(
        &pos,
        "d4",
        &[
            "a1", "g1", "b2", "f2", "c3", "e3", "c5", "e5", "b6", "f6", "a7", "g7", "h8",
        ],
    );
}

#[test]
fn bishop_attacks_with_up_left_blocker() {
    let pos = parse_fen("8/8/2n5/8/8/8/6B1/8 w - - 0 1");

    assert_attacks_eq(&pos, "g2", &["h1", "h3", "f1", "f3", "e4", "d5", "c6"]);
}

#[test]
fn bishop_attacks_with_up_right_blocker() {
    let pos = parse_fen("8/8/5n2/8/8/8/1B6/8 w - - 0 1");

    assert_attacks_eq(&pos, "b2", &["a1", "a3", "c1", "c3", "d4", "e5", "f6"]);
}

#[test]
fn bishop_attacks_with_down_left_blocker() {
    let pos = parse_fen("8/8/8/4B3/3n4/8/8/8 w - - 0 1");

    assert_attacks_eq(
        &pos,
        "e5",
        &["h8", "g7", "f6", "d4", "f4", "g3", "h2", "d6", "c7", "b8"],
    );
}

#[test]
fn bishop_attacks_with_down_right_blocker() {
    let pos = parse_fen("8/8/8/3b4/8/5N2/8/8 w - - 0 1");

    assert_attacks_eq(
        &pos,
        "d5",
        &["a8", "b7", "c6", "e6", "f7", "g8", "c4", "b3", "a2", "e4", "f3"],
    );
}

#[test]
fn rook_attacks_on_empty_board() {
    let pos = parse_fen("8/8/8/8/3r4/8/8/8 b - - 0 1");

    assert_attacks_eq(
        &pos,
        "d4",
        &[
            "d1", "d2", "d3", "d5", "d6", "d7", "d8", "a4", "b4", "c4", "e4", "f4", "g4", "h4",
        ],
    );
}

#[test]
fn rook_attacks_with_up_blocker() {
    let pos = parse_fen("8/8/8/3N4/8/8/8/3r4 b - - 0 1");

    assert_attacks_eq(
        &pos,
        "d1",
        &["d2", "d3", "d4", "d5", "a1", "b1", "c1", "e1", "f1", "g1", "h1"],
    );
}

#[test]
fn rook_attacks_with_right_blocker() {
    let pos = parse_fen("8/8/8/r2N4/8/8/8/8 b - - 0 1");

    assert_attacks_eq(
        &pos,
        "a5",
        &["b5", "c5", "d5", "a6", "a7", "a8", "a4", "a3", "a2", "a1"],
    );
}

#[test]
fn rook_attacks_with_left_blocker() {
    let pos = parse_fen("8/8/8/3N3r/8/8/8/8 b - - 0 1");

    assert_attacks_eq(
        &pos,
        "h5",
        &["g5", "f5", "e5", "d5", "h6", "h7", "h8", "h4", "h3", "h2", "h1"],
    );
}

#[test]
fn rook_attacks_with_down_blocker() {
    let pos = parse_fen("3r4/8/8/3N4/8/8/8/8 b - - 0 1");

    assert_attacks_eq(
        &pos,
        "d8",
        &["d7", "d6", "d5", "a8", "b8", "c8", "e8", "f8", "g8", "h8"],
    );
}

#[test]
fn king_attacks() {
    let pos = parse_fen("8/8/8/8/8/8/8/4K3 w - - 0 1");

    assert_attacks_eq(&pos, "e1", &["d1", "f1", "d2", "e2", "f2"]);
}
