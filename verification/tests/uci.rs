use anodos::piece::Piece;
use anodos::position::fen::START_POS_FEN;
use anodos::position::Position;
use anodos::square::Square;
use anodos::uci::{move_to_text, read_command, set_position, SearchParams, UciCommand, UciMove};

fn parse_command(command: &str) -> UciCommand {
    command.parse().unwrap()
}

fn parse_square(str: &str) -> Square {
    let square = str.parse();
    assert!(square.is_ok());

    square.unwrap()
}

fn handle_position(command: &UciCommand, pos: &mut Position) {
    if let UciCommand::Position(fen, moves) = command {
        set_position(pos, fen, moves);
    }
}

#[test]
fn parse_position_command_with_start_pos() {
    assert_eq!(
        parse_command("position startpos"),
        UciCommand::Position(START_POS_FEN.to_string(), vec![])
    );
}

#[test]
fn parse_position_command_with_fen() {
    assert_eq!(
        parse_command("position fen 4k3/8/8/8/8/8/8/4K3 w - - 0 1"),
        UciCommand::Position("4k3/8/8/8/8/8/8/4K3 w - - 0 1".to_string(), vec![])
    );
}

#[test]
fn parse_position_command_with_moves() {
    assert_eq!(
        parse_command("position startpos moves e2e4"),
        UciCommand::Position(
            START_POS_FEN.to_string(),
            vec![UciMove {
                from: parse_square("e2"),
                to: parse_square("e4"),
                promotion_piece: None
            }]
        )
    );

    assert_eq!(
        parse_command("position fen 4k3/8/8/8/8/8/8/4K3 w - - 0 1 moves d2d4 e7e6"),
        UciCommand::Position(
            "4k3/8/8/8/8/8/8/4K3 w - - 0 1".to_string(),
            vec![
                UciMove {
                    from: parse_square("d2"),
                    to: parse_square("d4"),
                    promotion_piece: None
                },
                UciMove {
                    from: parse_square("e7"),
                    to: parse_square("e6"),
                    promotion_piece: None
                }
            ]
        )
    );

    assert_eq!(
        parse_command("position startpos moves e7e8q"),
        UciCommand::Position(
            START_POS_FEN.to_string(),
            vec![UciMove {
                from: parse_square("e7"),
                to: parse_square("e8"),
                promotion_piece: Some(Piece::WQ)
            }]
        )
    );

    assert_eq!(
        parse_command("position startpos moves e2e1r"),
        UciCommand::Position(
            START_POS_FEN.to_string(),
            vec![UciMove {
                from: parse_square("e2"),
                to: parse_square("e1"),
                promotion_piece: Some(Piece::BR)
            }]
        )
    );
}

#[test]
fn handle_position_command_with_moves() {
    let command = parse_command("position startpos moves e2e4 e7e5");
    let mut pos = Position::startpos();

    handle_position(&command, &mut pos);

    assert_eq!(pos.board.piece_at(parse_square("e4")), Some(Piece::WP));
    assert_eq!(pos.board.piece_at(parse_square("e5")), Some(Piece::BP));
}

#[test]
fn handle_position_command_with_promotion_moves() {
    let fen = "8/1P2k3/8/8/8/8/4K1p1/8 w - - 0 1";
    let command = parse_command(&format!("position fen {fen} moves b7b8q g2g1r"));
    let mut pos: Position = fen.parse().unwrap();

    handle_position(&command, &mut pos);

    assert_eq!(pos.board.piece_at(parse_square("b8")), Some(Piece::WQ));
    assert_eq!(pos.board.piece_at(parse_square("g1")), Some(Piece::BR));
}

#[test]
fn parse_simple_commands() {
    assert_eq!(parse_command("uci"), UciCommand::Init);
    assert_eq!(parse_command("isready"), UciCommand::IsReady);
    assert_eq!(parse_command("ucinewgame"), UciCommand::NewGame);
    assert_eq!(parse_command("stop"), UciCommand::Stop);
    assert_eq!(parse_command("  quit  "), UciCommand::Quit);
}

#[test]
fn parse_go_command() {
    assert_eq!(parse_command("go"), UciCommand::Go(SearchParams { depth: 1 }));
    assert_eq!(parse_command("go depth 7"), UciCommand::Go(SearchParams { depth: 7 }));
    assert_eq!(
        parse_command("go wtime 100 depth 3 movetime 5"),
        UciCommand::Go(SearchParams { depth: 3 })
    );
}

#[test]
fn refuse_malformed_commands() {
    assert!(read_command("").is_none());
    assert!(read_command("   ").is_none());
    assert!(read_command("xyzzy").is_none());
    assert!(read_command("go depth").is_none());
    assert!(read_command("go depth 256").is_none());
    assert!(read_command("position").is_none());
    assert!(read_command("position moves e2e4").is_none());
    assert!(read_command("position startpos moves e2").is_none());
    assert!(read_command("position startpos moves e7e8k").is_none());
}

#[test]
fn position_fen_words_are_joined_by_single_spaces() {
    assert_eq!(
        parse_command("position   fen 8/8/8/8/8/8/8/8   w -  - 0   1"),
        UciCommand::Position("8/8/8/8/8/8/8/8 w - - 0 1".to_string(), vec![])
    );
}

#[test]
fn parse_uci_moves() {
    assert_eq!(
        "a7a8n".parse::<UciMove>(),
        Ok(UciMove {
            from: parse_square("a7"),
            to: parse_square("a8"),
            promotion_piece: Some(Piece::WN)
        })
    );
    assert_eq!(
        "h2h1b".parse::<UciMove>(),
        Ok(UciMove {
            from: parse_square("h2"),
            to: parse_square("h1"),
            promotion_piece: Some(Piece::BB)
        })
    );
    assert_eq!("e2e9".parse::<UciMove>(), Err(()));
    assert_eq!("e2".parse::<UciMove>(), Err(()));
    assert_eq!("é2e4".parse::<UciMove>(), Err(()));
}

#[test]
fn handle_position_stops_at_a_move_that_is_not_legal() {
    let command = parse_command("position startpos moves e2e4 e2e4 d7d5");
    let mut pos = Position::startpos();

    handle_position(&command, &mut pos);

    assert_eq!(pos.board.piece_at(parse_square("e4")), Some(Piece::WP));
    assert_eq!(pos.board.piece_at(parse_square("d7")), Some(Piece::BP));
}

#[test]
fn handle_position_leaves_the_position_for_an_unreadable_fen() {
    let command = parse_command("position fen 8/8/8 w - - 0 1 moves e2e4");
    let mut pos = Position::startpos();
    let before = format!("{:?}", pos);

    handle_position(&command, &mut pos);

    assert_eq!(format!("{:?}", pos), before);
}

#[test]
fn handle_position_plays_en_passant_and_castling() {
    let command = parse_command("position startpos moves e2e4 g8f6 e4e5 d7d5 e5d6 e7d6 g1f3 f8e7 f1e2 e8g8");
    let mut pos = Position::startpos();

    handle_position(&command, &mut pos);

    assert_eq!(pos.board.piece_at(parse_square("d6")), Some(Piece::BP));
    assert_eq!(pos.board.piece_at(parse_square("d5")), None);
    assert_eq!(pos.board.piece_at(parse_square("g8")), Some(Piece::BK));
    assert_eq!(pos.board.piece_at(parse_square("f8")), Some(Piece::BR));
}

#[test]
fn write_moves_in_the_protocol_notation() {
    assert_eq!(move_to_text(parse_square("e2"), parse_square("e4"), None), "e2e4");
    assert_eq!(move_to_text(parse_square("a7"), parse_square("a8"), Some(Piece::WQ)), "a7a8q");
    assert_eq!(move_to_text(parse_square("h2"), parse_square("h1"), Some(Piece::BN)), "h2h1n");
}

#[test]
fn written_moves_read_back() {
    for (from, to, promotion) in [
        ("e2", "e4", None),
        ("b7", "b8", Some(Piece::WR)),
        ("g2", "g1", Some(Piece::BB)),
    ] {
        let text = move_to_text(parse_square(from), parse_square(to), promotion);
        let mv: UciMove = text.parse().unwrap();
        assert_eq!(mv.from, parse_square(from));
        assert_eq!(mv.to, parse_square(to));
        assert_eq!(mv.promotion_piece, promotion);
    }
}

#[test]
fn whitespace_is_the_unicode_white_space_set() {
    for u in 0..=0x10FFFFu32 {
        if let Some(c) = char::from_u32(u) {
            assert_eq!(anodos::text::is_whitespace(c), c.is_whitespace(), "U+{:04X}", u);
        }
    }
}
