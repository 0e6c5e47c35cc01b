use anodos::colour::Colour;
use anodos::movegen::attacks::is_in_check;
use anodos::piece::Piece;
use anodos::position::Board;
use anodos::square::Square;

fn sq(name: &str) -> Square {
    name.parse::<Square>().unwrap()
}

#[test]
fn board_put_a_piece_on_the_board() {
    let mut board = Board::empty();
    let piece = Piece::WK;
    let square = sq("e1");

    board.put_piece(piece, square);

    assert!(board.has_piece_at(square));
    assert_eq!(board.piece_at(square), Some(piece));
    assert_eq!(board.count_pieces(piece), 1);
    assert_eq!(board.pieces_by_colour(piece.colour()) & square.u64(), square.u64());
}

#[test]
fn remove_a_piece_from_the_board() {
    let mut board = Board::empty();
    let square = sq("e1");
    board.put_piece(Piece::WK, square);

    assert!(board.has_piece_at(square));

    board.remove_piece(square);

    assert!(!board.has_piece_at(square));
}

#[test]
fn clear_a_square() {
    let mut board = Board::empty();
    let square = sq("e1");
    board.put_piece(Piece::WK, square);

    assert!(board.has_piece_at(square));

    board.remove_piece(square);

    assert!(!board.has_piece_at(square));
}

#[test]
fn test_put_piece() {
    let mut board = Board::empty();
    let piece = Piece::WK;
    let square = sq("e1");

    board.put_piece(piece, square);

    assert!(board.has_piece_at(square));
    assert_eq!(board.piece_at(square), Some(piece));
    assert_eq!(board.pieces_by_colour(piece.colour()) & square.u64(), square.u64());
}

#[test]
fn test_clear_square() {
    let mut board = Board::empty();
    let square = sq("e1");
    board.put_piece(Piece::WK, square);

    assert!(board.has_piece_at(square));

    board.remove_piece(square);

    assert!(!board.has_piece_at(square));
}

#[test]
fn mod_test_it_can_detect_check() {
    let mut board = Board::empty();
    board.put_piece(Piece::BK, sq("e8"));
    board.put_piece(Piece::WN, sq("d6"));

    assert!(is_in_check(Colour::Black, &board));
}

#[test]
fn occupancy_holds_every_piece() {
    let mut board = Board::empty();
    board.put_piece(Piece::BK, sq("e8"));
    board.put_piece(Piece::WN, sq("d6"));

    assert_eq!(board.occupancy(), sq("e8").u64() | sq("d6").u64());
    assert!(board.has_occupancy_at(sq("d6").u64()));
    assert!(!board.has_occupancy_at(sq("d5").u64()));
    assert_eq!(board.pieces(Piece::WN), sq("d6").u64());
    assert_eq!(board.pieces_by_colour(Colour::Black), sq("e8").u64());
}
