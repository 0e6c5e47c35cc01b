use anodos::colour::Colour;
use anodos::piece::Piece;
use anodos::position::fen::{read_fen, Reading, START_POS_FEN};
use anodos::position::{CastlingRight, CastlingRights, Position};
use anodos::square::Square;

fn parse_fen(fen: &str) -> Position {
    let pos = fen.parse::<Position>();
    assert!(pos.is_ok());
    pos.unwrap()
}

fn parse_square(name: &str) -> Square {
    let square = name.parse();
    assert!(square.is_ok());
    square.unwrap()
}

fn assert_parse_error(fen: &str, err: &str) {
    let parse = fen.parse::<Position>();

    assert!(parse.is_err());
    assert_eq!(parse.unwrap_err(), err.to_string());
}

#[test]
fn board() {
    let state = parse_fen("rnbqkbnr/pppppppp/8/8/4P3/8/PPPP1PPP/RNBQKBNR b KQkq e3 0 1");

    assert_eq!(state.board.piece_at(parse_square("e4")), Some(Piece::WP));
    assert!(!state.board.has_piece_at(parse_square("e2")));
}

#[test]
fn white_to_move() {
    let state = parse_fen("8/8/8/8/8/8/8/8 w - - 0 1");

    assert_eq!(state.colour_to_move, Colour::White);
}

#[test]
fn black_to_move() {
    let state = parse_fen("8/8/8/8/8/8/8/8 b - - 0 1");

    assert_eq!(state.colour_to_move, Colour::Black);
}

#[test]
fn no_castling_rights() {
    let state = parse_fen("8/8/8/8/8/8/8/8 w - - 0 1");

    assert_eq!(state.castling_rights, CastlingRights::none());
}

#[test]
fn partial_castling_rights() {
    let state = parse_fen("8/8/8/8/8/8/8/8 w Kq - 0 1");

    assert_eq!(
        state.castling_rights,
        CastlingRights::from(&[CastlingRight::WhiteKing, CastlingRight::BlackQueen])
    );
}

#[test]
fn all_castling_rights() {
    let state = parse_fen("8/8/8/8/8/8/8/8 w KQkq - 0 1");

    assert_eq!(state.castling_rights, CastlingRights::all());
}

#[test]
fn no_en_passant_square() {
    let state = parse_fen("8/8/8/8/8/8/8/8 w - - 0 1");

    assert_eq!(state.en_passant_square, None);
}

#[test]
fn en_passant_square_3rd_rank() {
    let state = parse_fen("8/8/8/8/8/8/8/8 w - f3 0 1");

    assert_eq!(state.en_passant_square, Some(parse_square("f3")));
}

#[test]
fn en_passant_square_6th_rank() {
    let state = parse_fen("8/8/8/8/8/8/8/8 w - f6 0 1");

    assert_eq!(state.en_passant_square, Some(parse_square("f6")));
}

#[test]
fn move_counters() {
    let state = parse_fen("8/8/8/8/8/8/8/8 w - - 10 20");

    assert_eq!(state.half_move_clock, 10);
    assert_eq!(state.full_move_counter, 20);
}

#[test]
fn test_board() {
    let fen = "rnbqkbnr/pppppppp/8/8/4P3/8/PPPP1PPP/RNBQKBNR b KQkq e3 0 1";
    let state: Position = fen.parse().unwrap();

    assert_eq!(state.board.piece_at("e4".parse::<Square>().unwrap()), Some(Piece::WP));
    assert!(!state.board.has_piece_at("e2".parse::<Square>().unwrap()));
}

#[test]
fn test_colour_to_move_white() {
    let state: Position = "8/8/8/8/8/8/8/8 w - - 0 1".parse().unwrap();

    assert_eq!(state.colour_to_move, Colour::White);
}

#[test]
fn test_colour_to_move_black() {
    let state: Position = "8/8/8/8/8/8/8/8 b - - 0 1".parse().unwrap();

    assert_eq!(state.colour_to_move, Colour::Black);
}

#[test]
fn test_castling_ability_none() {
    let state: Position = "8/8/8/8/8/8/8/8 w - - 0 1".parse().unwrap();

    assert_eq!(state.castling_rights, CastlingRights::none());
}

#[test]
fn test_castling_ability_partial() {
    let state: Position = "8/8/8/8/8/8/8/8 w Kq - 0 1".parse().unwrap();

    assert_eq!(
        state.castling_rights,
        CastlingRights::from(&[CastlingRight::WhiteKing, CastlingRight::BlackQueen])
    );
}

#[test]
fn test_castling_ability_all() {
    let state: Position = "8/8/8/8/8/8/8/8 w KQkq - 0 1".parse().unwrap();

    assert_eq!(state.castling_rights, CastlingRights::all());
}

#[test]
fn test_en_passant_square_none() {
    let state: Position = "8/8/8/8/8/8/8/8 w - - 0 1".parse().unwrap();

    assert_eq!(state.en_passant_square, None);
}

#[test]
fn test_en_passant_square_3rd_rank() {
    let state: Position = "8/8/8/8/8/8/8/8 w - f3 0 1".parse().unwrap();

    assert_eq!(state.en_passant_square, "f3".parse::<Square>().ok());
}

#[test]
fn test_en_passant_square_6th_rank() {
    let state: Position = "8/8/8/8/8/8/8/8 w - f6 0 1".parse().unwrap();

    assert_eq!(state.en_passant_square, "f6".parse::<Square>().ok());
}

#[test]
fn test_move_counters() {
    let state: Position = "8/8/8/8/8/8/8/8 w - - 10 20".parse().unwrap();

    assert_eq!(state.half_move_clock, 10);
    assert_eq!(state.full_move_counter, 20);
}

#[test]
fn parse_a_valid_fen() {
    let parse = START_POS_FEN.parse::<Position>();

    assert!(parse.is_ok());

    assert_eq!(parse.unwrap().board.piece_at(parse_square("e2")), Some(Piece::WP));
}

#[test]
fn parse_error_with_wrong_number_of_parts() {
    assert_parse_error("w - - 0 1", "FEN must contain 6 parts, got 5");
    assert_parse_error("8/8/8/8/8/8/8/8 w - - 0 1 extra", "FEN must contain 6 parts, got 7");
}

#[test]
fn parse_error_with_wrong_number_of_rows() {
    assert_parse_error("8/8 w - - 0 1", "board must contain 8 rows, got 2");
    assert_parse_error("8/8/8/8/8/8/8/8/1 w - - 0 1", "board must contain 8 rows, got 9");
}

#[test]
fn parse_error_with_wrong_number_of_squares() {
    assert_parse_error("8/8/8/8/8/8/8/7 w - - 0 1", "board must contain 64 squares");
    assert_parse_error("8/8/8/8/8/8/8/9 w - - 0 1", "board must contain 64 squares");
}

#[test]
fn parse_error_with_invalid_piece() {
    assert_parse_error("8/8/8/8/8/8/8/4a3 w - - 0 1", "invalid piece 'a'");
}

#[test]
fn parse_with_white_to_move() {
    let parse = "8/8/8/8/8/8/8/8 w - - 0 1".parse::<Position>();

    assert!(parse.is_ok());
    assert_eq!(parse.unwrap().colour_to_move, Colour::White);
}

#[test]
fn parse_with_black_to_move() {
    let parse = "8/8/8/8/8/8/8/8 b - - 0 1".parse::<Position>();

    assert!(parse.is_ok());
    assert_eq!(parse.unwrap().colour_to_move, Colour::Black);
}

#[test]
fn parse_error_with_invalid_colour_to_move() {
    assert_parse_error("8/8/8/8/8/8/8/8 W - - 0 1", "invalid colour to move 'W'");
}

#[test]
fn parse_with_no_castling_rights() {
    let parse = "8/8/8/8/8/8/8/8 w - - 0 1".parse::<Position>();

    assert!(parse.is_ok());
    assert_eq!(parse.unwrap().castling_rights, CastlingRights::none());
}

#[test]
fn parse_with_partial_castling_rights() {
    let parse = "8/8/8/8/8/8/8/8 w Kq - 0 1".parse::<Position>();

    assert!(parse.is_ok());

    assert_eq!(
        parse.unwrap().castling_rights,
        CastlingRights::from(&[CastlingRight::WhiteKing, CastlingRight::BlackQueen])
    );
}

#[test]
fn parse_with_all_castling_rights() {
    let parse = "8/8/8/8/8/8/8/8 w KQkq - 0 1".parse::<Position>();

    assert!(parse.is_ok());
    assert_eq!(parse.unwrap().castling_rights, CastlingRights::all());
}

#[test]
fn parse_error_with_invalid_castling_rights() {
    assert_parse_error("8/8/8/8/8/8/8/8 w K- - 0 1", "invalid castling rights");
}

#[test]
fn parse_with_no_en_passant_square() {
    let parse = "8/8/8/8/8/8/8/8 w - - 0 1".parse::<Position>();

    assert!(parse.is_ok());
    assert_eq!(parse.unwrap().en_passant_square, None);
}

#[test]
fn parse_with_en_passant_square_3rd_rank() {
    let parse = "8/8/8/8/8/8/8/8 w - f3 0 1".parse::<Position>();

    assert!(parse.is_ok());
    assert_eq!(parse.unwrap().en_passant_square, Some(parse_square("f3")));
}

#[test]
fn parse_with_en_passant_square_6th_rank() {
    let parse = "8/8/8/8/8/8/8/8 w - f6 0 1".parse::<Position>();

    assert!(parse.is_ok());
    assert_eq!(parse.unwrap().en_passant_square, Some(parse_square("f6")));
}

#[test]
fn parse_error_with_invalid_en_passant_square() {
    assert_parse_error("8/8/8/8/8/8/8/8 w - f4 0 1", "invalid en passant square");
}

#[test]
fn parse_with_move_counters() {
    let parse = "8/8/8/8/8/8/8/8 w - - 10 20".parse::<Position>();

    assert!(parse.is_ok());

    let pos = parse.unwrap();
    assert_eq!(pos.half_move_clock, 10);
    assert_eq!(pos.full_move_counter, 20);
}

#[test]
fn unreadable_move_counter_is_reported() {
    match read_fen("8/8/8/8/8/8/8/8 w - - x 1") {
        Reading::Unreadable(e) => assert_eq!(e, "invalid move counter 'x'"),
        _ => panic!("the counter should be unreadable"),
    }
}

#[test]
fn board_running_off_the_squares_is_unreadable() {
    match read_fen("8/8/8/8/8/8/8/8/ w - - 0 1") {
        Reading::Refused(e) => assert_eq!(e, "board must contain 8 rows, got 9"),
        _ => panic!("nine rows are refused"),
    }
    match read_fen("99999999999999999999999999999/8/8/8/8/8/8/8 w - - 0 1") {
        Reading::Unreadable(e) => assert_eq!(e, "board squares out of range"),
        _ => panic!("the board runs out of range"),
    }
}

#[test]
fn startpos_is_the_start_position_fen() {
    let start = Position::startpos();
    let parsed = parse_fen(START_POS_FEN);

    assert_eq!(start.board.occupancy(), parsed.board.occupancy());
    for index in 0..64u8 {
        let square = Square::from_index(index);
        assert_eq!(start.board.piece_at(square), parsed.board.piece_at(square));
    }
    assert_eq!(start.colour_to_move, parsed.colour_to_move);
    assert_eq!(start.castling_rights, parsed.castling_rights);
    assert_eq!(start.en_passant_square, parsed.en_passant_square);
    assert_eq!(start.half_move_clock, parsed.half_move_clock);
    assert_eq!(start.full_move_counter, parsed.full_move_counter);
}

#[test]
fn counters_may_have_a_plus_sign_and_leading_zeros() {
    let pos = parse_fen("8/8/8/8/8/8/8/8 w - - +007 255");

    assert_eq!(pos.half_move_clock, 7);
    assert_eq!(pos.full_move_counter, 255);
    assert!("8/8/8/8/8/8/8/8 w - - 0 256".parse::<Position>().is_err());
}

#[test]
#[should_panic]
fn invalid_piece() {
    parse_fen("8/8/8/8/8/8/8/4a3 w - - 0 1");
}

#[test]
#[should_panic]
fn too_few_rows() {
    parse_fen("8/8 w - - 0 1");
}

#[test]
#[should_panic]
fn too_many_rows() {
    parse_fen("8/8/8/8/8/8/8/8/1 w - - 0 1");
}

#[test]
#[should_panic]
fn too_few_squares() {
    parse_fen("8/8/8/8/8/8/8/7 w - - 0 1");
}

#[test]
#[should_panic]
fn too_many_squares() {
    parse_fen("8/8/8/8/8/8/8/9 w - - 0 1");
}

#[test]
#[should_panic]
fn too_few_parts() {
    parse_fen("w - - 0 1");
}

#[test]
#[should_panic]
fn too_many_parts() {
    parse_fen("8/8/8/8/8/8/8/8 w - - 0 1 extra");
}

#[test]
#[should_panic]
fn invalid_colour_to_move() {
    parse_fen("8/8/8/8/8/8/8/8 W - - 0 1");
}

#[test]
#[should_panic]
fn invalid_castling_rights() {
    parse_fen("8/8/8/8/8/8/8/8 w K- - 0 1");
}

#[test]
#[should_panic]
fn invalid_en_passant_square() {
    parse_fen("8/8/8/8/8/8/8/8 w - f4 0 1");
}
