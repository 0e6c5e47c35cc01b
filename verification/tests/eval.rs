use anodos::colour::Colour;
use anodos::eval::material::eval;
use anodos::eval::phase::{phase, MAX_PHASE};
use anodos::eval::terms::EvalTerm;
use anodos::eval::{psqt, terms};
use anodos::position::Position;

fn parse_fen(fen: &str) -> Position {
    let pos = fen.parse::<Position>();
    assert!(pos.is_ok());
    pos.unwrap()
}

#[test]
fn startpos_has_max_phase() {
    let pos = Position::startpos();
    assert_eq!(phase(&pos.board), MAX_PHASE);
}

#[test]
fn kings_only_has_zero_phase() {
    let pos = parse_fen("4k3/8/8/8/8/8/8/4K3 w - - 0 1");
    assert_eq!(phase(&pos.board), 0);
}

#[test]
fn material_more_material_is_good() {
    let more_white_material = parse_fen("4kbnr/8/8/8/8/8/4P3/4KBNR w - - 0 1");

    assert!(eval(Colour::White, &more_white_material.board) > eval(Colour::Black, &more_white_material.board));
}

#[test]
fn material_minor_pieces_are_worth_more_than_pawns() {
    let white_knight_black_pawn = parse_fen("8/4p3/8/8/8/8/8/6N1 w - - 0 1");
    let black_bishop_white_pawn = parse_fen("5b2/8/8/8/8/8/4P3/8 w - - 0 1");

    assert!(eval(Colour::White, &white_knight_black_pawn.board) > eval(Colour::Black, &white_knight_black_pawn.board));
    assert!(eval(Colour::Black, &black_bishop_white_pawn.board) > eval(Colour::White, &black_bishop_white_pawn.board));
}

#[test]
fn material_rooks_are_worth_more_than_bishops() {
    let pos = parse_fen("5b2/8/8/8/8/8/8/7R w - - 0 1");

    assert!(eval(Colour::White, &pos.board) > eval(Colour::Black, &pos.board));
}

#[test]
fn material_queens_are_worth_more_than_rooks() {
    let pos = parse_fen("7r/8/8/8/8/8/8/3Q4 w - - 0 1");

    assert!(eval(Colour::White, &pos.board) > eval(Colour::Black, &pos.board));
}

#[test]
fn material_of_the_start_position() {
    let pos = Position::startpos();

    assert_eq!(eval(Colour::White, &pos.board), 8 * 100 + 2 * 300 + 2 * 350 + 2 * 500 + 900);
    assert_eq!(eval(Colour::Black, &pos.board), 8 * 100 + 2 * 300 + 2 * 350 + 2 * 500 + 900);
}

#[test]
fn start_position_is_even() {
    let pos = Position::startpos();

    assert_eq!(anodos::eval::eval(&pos), 0);
}

#[test]
fn more_material_is_good() {
    let pos = parse_fen("rnb1kbnr/pppppppp/8/8/8/8/PPPPPPPP/RNBQKBNR w KQkq - 0 1");

    assert!(anodos::eval::eval(&pos) > 0);
}

#[test]
fn less_material_is_bad() {
    let pos = parse_fen("rnbqkbnr/pppppppp/8/8/8/8/PPPPPPPP/RNB1KBNR w KQkq - 0 1");

    assert!(anodos::eval::eval(&pos) < 0);
}

#[test]
fn evaluation_is_from_the_side_to_move() {
    let white = parse_fen("4k3/8/8/8/8/8/8/3QK3 w - - 0 1");
    let black = parse_fen("4k3/8/8/8/8/8/8/3QK3 b - - 0 1");

    assert_eq!(anodos::eval::eval(&white), -anodos::eval::eval(&black));
}

#[test]
fn a_knight_in_the_centre_beats_one_in_the_corner() {
    let centre = parse_fen("8/8/8/8/3N4/8/8/8 w - - 0 1");
    let corner = parse_fen("8/8/8/8/8/8/8/N7 w - - 0 1");

    assert_eq!(psqt::eval_non_king(Colour::White, &centre.board), 15);
    assert_eq!(psqt::eval_non_king(Colour::White, &corner.board), -25);
}

#[test]
fn king_tables_read_from_each_side() {
    let pos = parse_fen("6k1/8/8/8/8/8/8/6K1 w - - 0 1");

    assert_eq!(psqt::eval_king_mg(Colour::White, &pos.board), 40);
    assert_eq!(psqt::eval_king_mg(Colour::Black, &pos.board), 40);
    assert_eq!(psqt::eval_king_eg(Colour::White, &pos.board), -40);
}

#[test]
fn mobility_counts_free_squares() {
    let pos = parse_fen("8/8/8/8/3N4/8/8/8 w - - 0 1");
    let term = terms::mobility::eval(Colour::White, &pos.board);

    assert_eq!(term.mg(), 8 * 4);
    assert_eq!(term.eg(), 8 * 4);
}

#[test]
fn rooks_like_open_files() {
    let open = parse_fen("8/8/8/8/8/8/8/R7 w - - 0 1");
    let half_open = parse_fen("8/p7/8/8/8/8/8/R7 w - - 0 1");
    let closed = parse_fen("8/8/8/8/8/8/P7/R7 w - - 0 1");

    assert_eq!(terms::rooks::eval(Colour::White, &open.board).mg(), 15);
    assert_eq!(terms::rooks::eval(Colour::White, &half_open.board).eg(), 6);
    assert_eq!(terms::rooks::eval(Colour::White, &closed.board).mg(), 0);
}

#[test]
fn a_pawn_shield_counts_in_the_middle_game() {
    let pos = parse_fen("4k3/8/8/8/8/7P/5PP1/6K1 w - - 0 1");
    let term = terms::king::eval(Colour::White, &pos.board);

    assert_eq!(term.mg(), 2 * 12 + 6);
    assert_eq!(term.eg(), 0);

    let central = parse_fen("4k3/8/8/8/8/8/3PPP2/4K3 w - - 0 1");
    assert_eq!(terms::king::eval(Colour::White, &central.board).mg(), 0);
}

#[test]
fn eval_terms_add_and_subtract_by_phase() {
    let a = EvalTerm::new(10, 20);
    let b = EvalTerm::unphased(3);

    assert_eq!(a.plus(b).mg(), 13);
    assert_eq!(a.minus(b).eg(), 17);
    assert_eq!(EvalTerm::zero().mg(), 0);
}

#[test]
fn the_evaluation_is_from_the_side_to_move() {
    let white: anodos::position::Position =
        "r1bqkbnr/pppp1ppp/2n5/4p3/4P3/5N2/PPPP1PPP/RNBQKB1R w KQkq - 2 3".parse().unwrap();
    let black: anodos::position::Position =
        "r1bqkbnr/pppp1ppp/2n5/4p3/4P3/5N2/PPPP1PPP/RNBQKB1R b KQkq - 2 3".parse().unwrap();
    assert_eq!(anodos::eval::eval(&white), -anodos::eval::eval(&black));
}
