use anodos::colour::Colour;
use anodos::position::{CastlingRight, CastlingRights};
use anodos::square::Square;

#[test]
fn add_a_castling_right() {
    let mut rights = CastlingRights::none();

    rights.add(CastlingRight::WhiteKing);

    assert_eq!(rights, CastlingRights::from(&[CastlingRight::WhiteKing]));
}

#[test]
fn remove_a_castling_right() {
    let mut rights = CastlingRights::all();

    rights.remove(CastlingRight::WhiteKing);

    assert_eq!(
        rights,
        CastlingRights::from(&[
            CastlingRight::WhiteQueen,
            CastlingRight::BlackKing,
            CastlingRight::BlackQueen,
        ])
    );
}

#[test]
fn remove_castling_rights_for_a_colour() {
    let mut rights = CastlingRights::all();

    rights.remove_for_colour(Colour::White);

    assert_eq!(
        rights,
        CastlingRights::from(&[CastlingRight::BlackKing, CastlingRight::BlackQueen])
    );
}

#[test]
fn remove_castling_rights_for_a_corner_square() {
    let mut rights = CastlingRights::all();

    rights.remove_for_square("h1".parse::<Square>().unwrap());

    assert_eq!(
        rights,
        CastlingRights::from(&[
            CastlingRight::WhiteQueen,
            CastlingRight::BlackKing,
            CastlingRight::BlackQueen,
        ])
    );
}

#[test]
fn check_for_presence_of_a_castling_right() {
    let rights = CastlingRights::from(&[CastlingRight::WhiteKing]);

    assert!(rights.has(CastlingRight::WhiteKing));

    let not_rights = [CastlingRight::WhiteQueen, CastlingRight::BlackKing, CastlingRight::BlackQueen];

    for right in not_rights {
        assert!(!rights.has(right));
    }
}

#[test]
fn rights_have_a_number_below_sixteen() {
    assert_eq!(CastlingRights::none().index(), 0);
    assert_eq!(CastlingRights::all().index(), 15);
    assert_eq!(CastlingRights::from(&[CastlingRight::BlackKing]).index(), 4);
}
