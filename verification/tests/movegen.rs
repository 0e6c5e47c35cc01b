use anodos::movegen::attacks::is_in_check;
use anodos::movegen::{generate_all_moves, generate_non_quiet_moves, Move, MoveList};
use anodos::position::Position;
use anodos::square::Square;

fn parse_fen(fen: &str) -> Position {
    let pos = fen.parse::<Position>();
    assert!(pos.is_ok());
    pos.unwrap()
}

fn sq(name: &str) -> Square {
    name.parse::<Square>().unwrap()
}

fn assert_pseudo_legal_move_count(fen: &str, count: usize) {
    assert_eq!(generate_all_moves(&parse_fen(fen)).len(), count);
}

fn assert_legal_move_count(fen: &str, count: usize) {
    let mut pos = parse_fen(fen);
    let mut legal_move_count = 0;

    for mv in generate_all_moves(&pos).as_slice().to_vec() {
        pos.do_move(&mv);

        if !is_in_check(pos.opponent_colour(), &pos.board) {
            legal_move_count += 1;
        }

        pos.undo_move(&mv);
    }

    assert_eq!(legal_move_count, count);
}

fn assert_castling_move_count(moves: &MoveList, count: usize) {
    assert_eq!(moves.as_slice().iter().filter(|mv| mv.is_castling()).count(), count);
}

#[test]
fn mod_legal_move_count_in_checkmate_is_zero() {
    assert_legal_move_count("rnb1kbnr/pppp1ppp/4p3/8/6Pq/5P2/PPPPP2P/RNBQKBNR w KQkq - 0 1", 0);
}

#[test]
fn mod_legal_move_count_in_check_is_limited() {
    assert_legal_move_count("rnbqkbnr/1pp1p1pp/p2p1p2/1B6/8/4P3/PPPP1PPP/RNBQK1NR b KQq - 0 1", 7);
}

#[test]
fn mod_white_pawn_moves() {
    assert_pseudo_legal_move_count("8/8/8/8/8/8/4P3/8 w - - 0 1", 2);
}

#[test]
fn mod_black_pawn_moves() {
    assert_pseudo_legal_move_count("8/4p3/8/8/8/8/8/8 b - - 0 1", 2);
}

#[test]
fn mod_single_pawn_advance() {
    assert_pseudo_legal_move_count("8/8/8/8/4p3/8/4P3/8 w - - 0 1", 1);
}

#[test]
fn mod_double_pawn_advance() {
    assert_pseudo_legal_move_count("8/8/8/8/8/4p3/4P3/8 w - - 0 1", 0);
}

#[test]
fn mod_knight_moves() {
    assert_pseudo_legal_move_count("8/8/8/8/3N4/8/8/8 w - - 0 1", 8);
}

#[test]
fn mod_bishop_moves() {
    assert_pseudo_legal_move_count("8/r7/5n2/8/3B4/8/8/8 w - - 0 1", 11);
}

#[test]
fn mod_rook_moves() {
    assert_pseudo_legal_move_count("8/3b4/8/8/1n1R4/8/8/8 w - - 0 1", 12);
}

#[test]
fn mod_king_moves() {
    assert_pseudo_legal_move_count("8/8/8/8/8/8/8/4K3 w - - 0 1", 5);
}

#[test]
fn mod_pawn_promotion_with_advance() {
    assert_pseudo_legal_move_count("8/4P3/8/8/8/8/8/8 w - - 0 1", 4);
}

#[test]
fn mod_pawn_promotion_with_capture() {
    assert_pseudo_legal_move_count("3qk3/4P3/8/8/8/8/8/8 w - - 0 1", 4);
}

#[test]
fn mod_pawn_promotion_with_advance_or_capture() {
    assert_pseudo_legal_move_count("3q4/4P3/8/8/8/8/8/8 w - - 0 1", 8);
}

#[test]
fn mod_castle_king_side_only() {
    let pos = parse_fen("8/8/8/8/8/8/8/R3K2R w K - 0 1");

    let moves = generate_all_moves(&pos);

    assert_castling_move_count(&moves, 1);
}

#[test]
fn mod_castle_queen_side_only() {
    let pos = parse_fen("8/8/8/8/8/8/8/R3K2R w Q - 0 1");

    let moves = generate_all_moves(&pos);

    assert_castling_move_count(&moves, 1);
}

#[test]
fn mod_castle_king_and_queen_side() {
    let pos = parse_fen("8/8/8/8/8/8/8/R3K2R w KQ - 0 1");

    let moves = generate_all_moves(&pos);

    assert_castling_move_count(&moves, 2);
}

#[test]
fn mod_no_castling_when_the_target_square_is_occupied_by_a_friendly_piece() {
    let pos = parse_fen("8/8/8/8/8/8/8/R1B1K1NR w KQ - 0 1");

    let moves = generate_all_moves(&pos);

    assert_castling_move_count(&moves, 0);
}

#[test]
fn mod_no_castling_when_the_target_square_is_occupied_by_an_opponent_piece() {
    let pos = parse_fen("8/8/8/8/8/8/8/R1b1K1nR w KQ - 0 1");

    let moves = generate_all_moves(&pos);

    assert_castling_move_count(&moves, 0);
}

#[test]
fn mod_no_castling_when_a_piece_blocks_the_path() {
    let pos = parse_fen("8/8/8/8/8/8/8/RN2KB1R w KQ - 0 1");

    let moves = generate_all_moves(&pos);

    assert_castling_move_count(&moves, 0);
}

#[test]
fn mod_no_castling_when_the_king_path_is_attacked() {
    let pos = parse_fen("8/8/8/8/8/4n3/8/R3K2R w KQ - 0 1");

    let moves = generate_all_moves(&pos);

    assert_castling_move_count(&moves, 0);
}

#[test]
fn mod_no_castling_when_the_right_was_previously_lost() {
    let pos = parse_fen("8/8/8/8/8/8/8/R3K2R w Q - 0 1");

    let moves = generate_all_moves(&pos);

    assert_castling_move_count(&moves, 1);

    let castling_move = moves.as_slice().iter().filter(|mv| mv.is_castling()).next().unwrap();

    assert_eq!(castling_move.from, sq("e1"));
    assert_eq!(castling_move.to, sq("c1"));
}

#[test]
fn mod_no_castling_out_of_check() {
    let pos = parse_fen("8/8/8/8/8/3n4/8/R3K2R w KQ - 0 1");

    let moves = generate_all_moves(&pos);

    assert_castling_move_count(&moves, 0);
}

#[test]
fn mod_en_passant_capture() {
    let pos = parse_fen("8/8/8/3PpP2/8/8/8/8 w - e6 0 1");

    let moves = generate_all_moves(&pos);

    assert_eq!(moves.len(), 4);
    assert_eq!(moves.as_slice().iter().filter(|mv| mv.is_en_passant).count(), 2);
}

#[test]
fn mod_ignore_friendly_piece_captures() {
    assert_pseudo_legal_move_count("8/8/5p2/5P2/3N4/8/8/8 w - - 0 1", 7);
}

#[test]
fn movegen_legal_move_count_in_checkmate_is_zero() {
    assert_legal_move_count("rnb1kbnr/pppp1ppp/4p3/8/6Pq/5P2/PPPPP2P/RNBQKBNR w KQkq - 0 1", 0);
}

#[test]
fn movegen_legal_move_count_in_check_is_limited() {
    assert_legal_move_count("rnbqkbnr/1pp1p1pp/p2p1p2/1B6/8/4P3/PPPP1PPP/RNBQK1NR b KQq - 0 1", 7);
}

#[test]
fn movegen_white_pawn_moves() {
    assert_pseudo_legal_move_count("8/8/8/8/8/8/4P3/8 w - - 0 1", 2);
}

#[test]
fn movegen_black_pawn_moves() {
    assert_pseudo_legal_move_count("8/4p3/8/8/8/8/8/8 b - - 0 1", 2);
}

#[test]
fn movegen_single_pawn_advance() {
    assert_pseudo_legal_move_count("8/8/8/8/4p3/8/4P3/8 w - - 0 1", 1);
}

#[test]
fn movegen_double_pawn_advance() {
    assert_pseudo_legal_move_count("8/8/8/8/8/4p3/4P3/8 w - - 0 1", 0);
}

#[test]
fn movegen_knight_moves() {
    assert_pseudo_legal_move_count("8/8/8/8/3N4/8/8/8 w - - 0 1", 8);
}

#[test]
fn movegen_bishop_moves() {
    assert_pseudo_legal_move_count("8/r7/5n2/8/3B4/8/8/8 w - - 0 1", 11);
}

#[test]
fn movegen_rook_moves() {
    assert_pseudo_legal_move_count("8/3b4/8/8/1n1R4/8/8/8 w - - 0 1", 12);
}

#[test]
fn movegen_king_moves() {
    assert_pseudo_legal_move_count("8/8/8/8/8/8/8/4K3 w - - 0 1", 5);
}

#[test]
fn movegen_pawn_promotion_with_advance() {
    assert_pseudo_legal_move_count("8/4P3/8/8/8/8/8/8 w - - 0 1", 4);
}

#[test]
fn movegen_pawn_promotion_with_capture() {
    assert_pseudo_legal_move_count("3qk3/4P3/8/8/8/8/8/8 w - - 0 1", 4);
}

#[test]
fn movegen_pawn_promotion_with_advance_or_capture() {
    assert_pseudo_legal_move_count("3q4/4P3/8/8/8/8/8/8 w - - 0 1", 8);
}

#[test]
fn movegen_castle_king_side_only() {
    let pos = parse_fen("8/8/8/8/8/8/8/R3K2R w K - 0 1");

    let moves = generate_all_moves(&pos);

    assert_castling_move_count(&moves, 1);
}

#[test]
fn movegen_castle_queen_side_only() {
    let pos = parse_fen("8/8/8/8/8/8/8/R3K2R w Q - 0 1");

    let moves = generate_all_moves(&pos);

    assert_castling_move_count(&moves, 1);
}

#[test]
fn movegen_castle_king_and_queen_side() {
    let pos = parse_fen("8/8/8/8/8/8/8/R3K2R w KQ - 0 1");

    let moves = generate_all_moves(&pos);

    assert_castling_move_count(&moves, 2);
}

#[test]
fn movegen_no_castling_when_the_target_square_is_occupied_by_a_friendly_piece() {
    let pos = parse_fen("8/8/8/8/8/8/8/R1B1K1NR w KQ - 0 1");

    let moves = generate_all_moves(&pos);

    assert_castling_move_count(&moves, 0);
}

#[test]
fn movegen_no_castling_when_the_target_square_is_occupied_by_an_opponent_piece() {
    let pos = parse_fen("8/8/8/8/8/8/8/R1b1K1nR w KQ - 0 1");

    let moves = generate_all_moves(&pos);

    assert_castling_move_count(&moves, 0);
}

#[test]
fn movegen_no_castling_when_a_piece_blocks_the_path() {
    let pos = parse_fen("8/8/8/8/8/8/8/RN2KB1R w KQ - 0 1");

    let moves = generate_all_moves(&pos);

    assert_castling_move_count(&moves, 0);
}

#[test]
fn movegen_no_castling_when_the_king_path_is_attacked() {
    let pos = parse_fen("8/8/8/8/8/4n3/8/R3K2R w KQ - 0 1");

    let moves = generate_all_moves(&pos);

    assert_castling_move_count(&moves, 0);
}

#[test]
fn movegen_no_castling_when_the_right_was_previously_lost() {
    let pos = parse_fen("8/8/8/8/8/8/8/R3K2R w Q - 0 1");

    let moves = generate_all_moves(&pos);

    assert_castling_move_count(&moves, 1);

    let castling_move = moves
        .as_slice()
        .iter()
        .filter(|mv| pos.board.piece_at(mv.from).unwrap().is_king() && mv.file_diff() > 1)
        .next()
        .unwrap();

    assert_eq!(castling_move.to, "c1".parse::<Square>().unwrap());
}

#[test]
fn movegen_no_castling_out_of_check() {
    let pos = parse_fen("8/8/8/8/8/3n4/8/R3K2R w KQ - 0 1");

    let moves = generate_all_moves(&pos);

    assert_castling_move_count(&moves, 0);
}

#[test]
fn movegen_en_passant_capture() {
    let pos = parse_fen("8/8/8/3PpP2/8/8/8/8 w - e6 0 1");

    let moves = generate_all_moves(&pos);

    assert_eq!(moves.as_slice().iter().filter(|mv| mv.is_en_passant).count(), 2);
}

#[test]
fn movegen_ignore_friendly_piece_captures() {
    assert_pseudo_legal_move_count("8/8/5p2/5P2/3N4/8/8/8 w - - 0 1", 7);
}

#[test]
fn test_generate_moves_from_start_position() {
    let fen = "rnbqkbnr/pppppppp/8/8/8/8/PPPPPPPP/RNBQKBNR w KQkq - 0 1";
    let state = parse_fen(fen);

    assert_eq!(generate_all_moves(&state).len(), 20);
}

#[test]
fn test_generate_white_pawn_moves() {
    let fen = "8/8/8/8/8/8/4P3/4K3 w - - 0 1";
    let state = parse_fen(fen);

    assert_eq!(generate_all_moves(&state).len(), 6);
}

#[test]
fn test_generate_black_pawn_moves() {
    let fen = "4k3/4p3/8/8/8/8/8/8 b - - 0 1";
    let state = parse_fen(fen);

    assert_eq!(generate_all_moves(&state).len(), 6);
}

#[test]
fn test_generate_white_pawn_advance_single() {
    let fen = "8/8/8/8/4k3/8/4P3/4K3 w - - 0 1";
    let state = parse_fen(fen);

    assert_eq!(generate_all_moves(&state).len(), 5);
}

#[test]
fn test_generate_white_pawn_advance_double() {
    let fen = "8/8/8/8/8/4k3/4P3/4K3 w - - 0 1";
    let state = parse_fen(fen);

    assert_eq!(generate_all_moves(&state).len(), 4);
}

#[test]
fn test_generate_knight_moves() {
    let fen = "8/8/8/8/3N4/8/8/4K3 w - - 0 1";
    let state = parse_fen(fen);

    assert_eq!(generate_all_moves(&state).len(), 13);
}

#[test]
fn test_generate_bishop_moves() {
    let fen = "8/r7/5n2/8/3B4/8/8/4K3 w - - 0 1";
    let state = parse_fen(fen);

    let moves = generate_all_moves(&state);
    let captures = moves.as_slice().iter().filter(|mv| mv.captured_piece.is_some()).collect::<Vec<&Move>>();

    assert_eq!(moves.len(), 16);
    assert_eq!(captures.len(), 2);
}

#[test]
fn test_generate_rook_moves() {
    let fen = "8/3b4/8/8/1n1R4/8/8/4K3 w - - 0 1";
    let state = parse_fen(fen);

    let moves = generate_all_moves(&state);
    let captures = moves.as_slice().iter().filter(|mv| mv.captured_piece.is_some()).collect::<Vec<&Move>>();

    assert_eq!(moves.len(), 17);
    assert_eq!(captures.len(), 2);
}

#[test]
fn test_generate_king_moves() {
    let fen = "8/8/8/8/8/8/8/4K3 w - - 0 1";
    let state = parse_fen(fen);

    assert_eq!(generate_all_moves(&state).len(), 5);
}

#[test]
fn test_ignore_friendly_piece_captures() {
    let fen = "8/8/5p2/5P2/3N4/8/8/4K3 w - - 0 1";
    let state = parse_fen(fen);

    assert_eq!(generate_all_moves(&state).len(), 12);
}

#[test]
fn non_quiet_moves_are_captures_and_promotions() {
    let pos = parse_fen("3q4/4P3/8/8/3N4/8/8/4K3 w - - 0 1");
    let moves = generate_non_quiet_moves(&pos);

    assert_eq!(moves.len(), 8);
    assert!(moves.as_slice().iter().all(|mv| mv.captured_piece.is_some() || mv.promotion_piece.is_some()));
}

#[test]
fn moves_are_listed_pawns_first_then_by_square() {
    let pos = parse_fen("8/8/8/8/8/8/4P3/4K3 w - - 0 1");
    let moves = generate_all_moves(&pos);
    let listed: Vec<(Square, Square)> = moves.as_slice().iter().map(|mv| (mv.from, mv.to)).collect();

    assert_eq!(
        listed,
        vec![
            (sq("e2"), sq("e3")),
            (sq("e2"), sq("e4")),
            (sq("e1"), sq("d1")),
            (sq("e1"), sq("f1")),
            (sq("e1"), sq("d2")),
            (sq("e1"), sq("f2")),
        ]
    );
}
