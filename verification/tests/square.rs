use anodos::colour::Colour;
use anodos::square::Square;

fn sq(name: &str) -> Square {
    name.parse::<Square>().unwrap()
}

#[test]
fn create_from_a_file_and_a_rank() {
    assert_eq!(Square::from_file_and_rank(0, 0), sq("a1"));
    assert_eq!(Square::from_file_and_rank(7, 7), sq("h8"));
    assert_eq!(Square::from_file_and_rank(1, 4), Square::from_index(33));
}

#[test]
fn create_from_algebraic_notation() {
    assert_eq!("a1".parse::<Square>(), Ok(Square::from_index(0)));
    assert_eq!("h8".parse::<Square>(), Ok(Square::from_index(63)));
    assert_eq!("b5".parse::<Square>(), Ok(Square::from_index(33)));
}

#[test]
fn create_from_first_bit_in_a_bitboard() {
    let bitboard = sq("a1").u64() | sq("a8").u64();

    assert_eq!(Square::first(bitboard), sq("a1"));
}

#[test]
fn create_from_last_bit_in_a_bitboard() {
    let bitboard = sq("a1").u64() | sq("a8").u64();

    assert_eq!(Square::last(bitboard), sq("a8"));
}

#[test]
fn consume_next_bit_in_a_bitboard() {
    let mut bitboard = sq("a1").u64() | sq("a8").u64();

    assert_eq!(Square::next(&mut bitboard), sq("a1"));
    assert_eq!(bitboard, sq("a8").u64());

    assert_eq!(Square::next(&mut bitboard), sq("a8"));
    assert_eq!(bitboard, 0);
}

#[test]
fn it_cannot_be_created_from_invalid_algebraic_notation() {
    for str in ["", "a", "a1b", "a9", "i1"] {
        assert!(str.parse::<Square>().is_err());
    }
}

#[test]
fn advance_a_square_given_a_colour() {
    assert_eq!(sq("e5"), sq("e4").advance(Colour::White));
    assert_eq!(sq("e3"), sq("e4").advance(Colour::Black));
}

#[test]
fn test_from_u64() {
    assert_eq!(Square::from_u64(1), Square::from_index(0));
    assert_eq!(Square::from_u64(2u64.pow(33)), Square::from_index(33));
    assert_eq!(Square::from_u64(2u64.pow(63)), Square::from_index(63));
}

#[test]
fn test_from_file_and_rank() {
    assert_eq!(Square::from_file_and_rank(0, 0), Square::from_index(0));
    assert_eq!(Square::from_file_and_rank(7, 7), Square::from_index(63));
    assert_eq!(Square::from_file_and_rank(1, 4), Square::from_index(33));
}

#[test]
fn test_from_string() {
    assert_eq!("a1".parse::<Square>(), Ok(Square::from_index(0)));
    assert_eq!("h8".parse::<Square>(), Ok(Square::from_index(63)));
    assert_eq!("b5".parse::<Square>(), Ok(Square::from_index(33)));
}

#[test]
fn test_invalid_from_string() {
    assert!("a".parse::<Square>().is_err());
    assert!("i1".parse::<Square>().is_err());
    assert!("a9".parse::<Square>().is_err());
}

#[test]
fn square_error_text_names_the_square() {
    assert_eq!(Square::parse("z9"), Err("invalid square 'z9'".to_string()));
}

#[test]
fn a_lone_two_byte_character_is_no_square() {
    assert!("é".parse::<Square>().is_err());
}

#[test]
fn square_coordinates() {
    let e4 = sq("e4");
    assert_eq!(e4.index(), 28);
    assert_eq!(e4.file(), 4);
    assert_eq!(e4.rank(), 3);
    assert_eq!(e4.u64(), 1u64 << 28);
    assert_eq!(sq("a1").file_diff(sq("h8")), 7);
    assert_eq!(sq("b2").rank_diff(sq("b7")), 5);
    assert!(sq("h1").is_corner());
    assert!(!sq("g1").is_corner());
    assert!(sq("c8").is_back_rank());
    assert!(!sq("c7").is_back_rank());
}
