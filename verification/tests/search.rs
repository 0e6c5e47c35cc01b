use anodos::eval::{EVAL_DRAW, EVAL_MATE, EVAL_MAX, EVAL_MIN};
use anodos::movegen::moves::Move;
use anodos::piece::Piece;
use anodos::position::castling::CastlingRights;
use anodos::position::fen::START_POS_FEN;
use anodos::position::Position;
use anodos::search::alphabeta::{self, log2, lmp_threshold, SearchState};
use anodos::search::history::HistoryTable;
use anodos::search::iterate::{get_forced_move, record_iteration, sanitise_pv, search_iteration};
use anodos::search::killers::KillerMoves;
use anodos::search::movepicker::{MovePicker, MovePickerMode};
use anodos::search::pv::PvTable;
use anodos::search::quiescence;
use anodos::search::report::Report;
use anodos::search::stopper::Stopper;
use anodos::search::time::TimeLimit;
use anodos::search::tt::{eval_in, eval_out, Bound, TranspositionTable};
use anodos::collections::MoveList;
use anodos::square::Square;
use std::sync::atomic::AtomicBool;

fn parse_fen(fen: &str) -> Position {
    let pos = fen.parse::<Position>();
    assert!(pos.is_ok());
    pos.unwrap()
}

fn sq(name: &str) -> Square {
    name.parse::<Square>().unwrap()
}

fn make_move(piece: Piece, from: &str, to: &str, captured_piece: Option<Piece>) -> Move {
    Move {
        piece,
        from: sq(from),
        to: sq(to),
        captured_piece,
        promotion_piece: None,
        castling_rights: CastlingRights::none(),
        half_move_clock: 0,
        is_en_passant: false,
    }
}

fn make_promotion_move(piece: Piece, from: &str, to: &str, promotion: Piece) -> Move {
    Move {
        promotion_piece: Some(promotion),
        ..make_move(piece, from, to, None)
    }
}

fn move_list(moves: &[Move]) -> MoveList {
    let mut list = MoveList::new();
    for mv in moves {
        list.push(*mv);
    }
    list
}

fn picked_moves(picker: &mut MovePicker) -> Vec<Move> {
    let mut picked = vec![];
    while let Some(mv) = picker.pick() {
        picked.push(mv);
    }
    picked
}

#[test]
fn order_moves_by_mvv_lva_then_promotions_then_killers_then_history() {
    let quiet1 = make_move(Piece::WP, "g2", "g4", None);
    let quiet2 = make_move(Piece::WP, "g2", "g3", None);
    let quiet3 = make_move(Piece::WP, "c4", "c5", None);
    let killer1 = make_move(Piece::WP, "a2", "a3", None);
    let killer2 = make_move(Piece::WP, "b2", "b3", None);
    let pawn_x_pawn = make_move(Piece::WP, "c4", "b5", Some(Piece::BP));
    let pawn_x_queen = make_move(Piece::WP, "c4", "d5", Some(Piece::BQ));
    let knight_x_bishop = make_move(Piece::WN, "f4", "d3", Some(Piece::BB));
    let knight_x_queen = make_move(Piece::WN, "f4", "d5", Some(Piece::BQ));
    let knight_x_rook = make_move(Piece::WN, "f4", "g6", Some(Piece::BR));
    let knight_x_knight = make_move(Piece::WN, "f4", "h3", Some(Piece::BN));
    let promotion = make_promotion_move(Piece::WP, "a7", "a8", Piece::WQ);

    let killer_ply = 0;
    let mut killers = KillerMoves::new();
    killers.store(killer_ply, &killer2);
    killers.store(killer_ply, &killer1);

    let mut history = HistoryTable::new();
    history.store(100, Piece::WP, sq("g4"));
    history.store(-100, Piece::WP, sq("c5"));

    let mut picker = MovePicker::new(
        &parse_fen("7k/P7/6r1/1p1q4/2P2N2/3b3n/PP4P1/4K3 w - - 0 1"),
        MovePickerMode::AllMoves {
            killers: &killers,
            history: &history,
            ply: killer_ply,
        },
    );

    let picked = picked_moves(&mut picker);

    let index = |target: &Move| picked.iter().position(|mv| mv == target).unwrap();

    assert!(index(&pawn_x_queen) < index(&knight_x_queen));
    assert!(index(&knight_x_queen) < index(&knight_x_rook));
    assert!(index(&knight_x_rook) < index(&knight_x_bishop));
    assert!(index(&knight_x_bishop) < index(&knight_x_knight));
    assert!(index(&knight_x_knight) < index(&pawn_x_pawn));

    assert!(index(&pawn_x_pawn) < index(&promotion));
    assert!(index(&promotion) < index(&killer1));
    assert!(index(&killer1) < index(&killer2));
    assert!(index(&killer2) < index(&quiet1));
    assert!(index(&quiet1) < index(&quiet2));
    assert!(index(&quiet2) < index(&quiet3));
}

#[test]
fn non_quiet_order_moves_by_mvv_lva() {
    let pawn_x_pawn = make_move(Piece::WP, "c4", "b5", Some(Piece::BP));
    let pawn_x_queen = make_move(Piece::WP, "c4", "d5", Some(Piece::BQ));
    let knight_x_bishop = make_move(Piece::WN, "f4", "d3", Some(Piece::BB));
    let knight_x_queen = make_move(Piece::WN, "f4", "d5", Some(Piece::BQ));
    let knight_x_rook = make_move(Piece::WN, "f4", "g6", Some(Piece::BR));
    let knight_x_knight = make_move(Piece::WN, "f4", "h3", Some(Piece::BN));
    let promotion = make_promotion_move(Piece::WP, "a7", "a8", Piece::WQ);

    let mut picker = MovePicker::new(
        &parse_fen("7k/P7/6r1/1p1q4/2P2N2/3b3n/8/4K3 w - - 0 1"),
        MovePickerMode::NonQuiets,
    );

    let picked = picked_moves(&mut picker);

    let index = |target: &Move| picked.iter().position(|mv| mv == target).unwrap();

    assert!(index(&pawn_x_queen) < index(&knight_x_queen));
    assert!(index(&knight_x_queen) < index(&knight_x_rook));
    assert!(index(&knight_x_rook) < index(&knight_x_bishop));
    assert!(index(&knight_x_bishop) < index(&knight_x_knight));
    assert!(index(&knight_x_knight) < index(&pawn_x_pawn));
    assert!(index(&pawn_x_pawn) < index(&promotion));
}

#[test]
fn picker_hands_out_every_move_once() {
    let pos = parse_fen(START_POS_FEN);
    let killers = KillerMoves::new();
    let history = HistoryTable::new();
    let mut picker = MovePicker::new(
        &pos,
        MovePickerMode::AllMoves {
            killers: &killers,
            history: &history,
            ply: 0,
        },
    );
    let picked = picked_moves(&mut picker);
    assert_eq!(picked.len(), 20);
    for (i, a) in picked.iter().enumerate() {
        for b in picked.iter().skip(i + 1) {
            assert_ne!(a, b);
        }
    }
    assert_eq!(picker.pick(), None);
}

#[test]
fn report_forced_moves_without_searching() {
    let mut pos = parse_fen("3R2k1/5p1p/6p1/8/8/8/8/4K3 b - - 0 1");

    let forced = get_forced_move(&mut pos);

    assert_eq!(
        forced,
        Some(Move {
            castling_rights: CastlingRights::none(),
            ..make_move(Piece::BK, "g8", "g7", None)
        })
    );
    let report = anodos::search::iterate::forced_report(forced.unwrap());
    assert_eq!(report.nodes, 0);
    assert_eq!(report.best_move(), forced);
}

#[test]
fn no_forced_move_with_a_choice() {
    let mut pos = parse_fen(START_POS_FEN);
    assert_eq!(get_forced_move(&mut pos), None);
}

#[test]
fn quiescence_brings_the_quiet_value_into_the_window() {
    let mut pos = parse_fen("4k3/8/8/3q4/4P3/8/8/4K3 w - - 0 1");
    let mut report = Report::new();
    let v = quiescence::search(&mut pos, -1_000_000, 1_000_000, &mut report);
    assert!(report.nodes >= 2);
    assert_eq!(quiescence::search(&mut pos, v - 1, v + 1, &mut report), v);
    assert_eq!(quiescence::search(&mut pos, v + 5, v + 10, &mut report), v + 5);
    assert_eq!(quiescence::search(&mut pos, v - 10, v - 5, &mut report), v - 5);
    // Taking the queen is worth far more than standing pat.
    let mut quiet = parse_fen("4k3/8/8/3P4/8/8/8/4K3 b - - 0 1");
    let mut quiet_report = Report::new();
    let after_capture = -quiescence::search(&mut quiet, -1_000_000, 1_000_000, &mut quiet_report);
    assert_eq!(v, after_capture);
}

#[test]
fn report_the_depth() {
    let mut pos = Position::startpos();
    let mut tt = TranspositionTable::new(1);
    let stopper = Stopper::new();
    let mut ss = SearchState::new();
    let mut depths = vec![];
    let mut last_eval = 0;

    for depth in 1..=3 {
        last_eval = search_iteration(&mut ss, &mut tt, &stopper, &mut pos, depth, last_eval);
        record_iteration(&mut ss, &tt, &pos, depth, last_eval);
        depths.push(ss.report.depth);
    }

    assert_eq!(vec![1, 2, 3], depths);
}

#[test]
fn report_the_principal_variation() {
    let mut pos = Position::startpos();
    let mut tt = TranspositionTable::new(1);
    let stopper = Stopper::new();
    let mut ss = SearchState::new();

    let eval = search_iteration(&mut ss, &mut tt, &stopper, &mut pos, 1, 0);
    record_iteration(&mut ss, &tt, &pos, 1, eval);

    assert!(ss.report.best_move().is_some());
    assert_eq!(ss.report.eval(), Some(eval));
}

#[test]
fn find_a_mate_in_one() {
    let mut pos = parse_fen("6k1/5ppp/8/8/8/8/8/R5K1 w - - 0 1");
    let mut tt = TranspositionTable::new(1);
    let stopper = Stopper::new();
    let mut ss = SearchState::new();

    let eval = search_iteration(&mut ss, &mut tt, &stopper, &mut pos, 2, 0);
    record_iteration(&mut ss, &tt, &pos, 2, eval);

    assert_eq!(eval, EVAL_MATE - 1);
    let best = ss.report.best_move().unwrap();
    assert_eq!(best.from, sq("a1"));
    assert_eq!(best.to, sq("a8"));
    assert_eq!(ss.report.moves_until_mate(), Some(1));
}

#[test]
fn a_mated_side_gets_the_mate_score() {
    let mut pos = parse_fen("R5k1/5ppp/8/8/8/8/8/6K1 b - - 0 1");
    let mut tt = TranspositionTable::new(1);
    let stopper = Stopper::new();
    let mut ss = SearchState::new();
    assert_eq!(alphabeta::search(&mut ss, &mut tt, &stopper, &mut pos, 1, EVAL_MIN, EVAL_MAX, 0), -EVAL_MATE);
}

#[test]
fn stalemate_is_a_draw() {
    let mut pos = parse_fen("7k/5Q2/6K1/8/8/8/8/8 b - - 0 1");
    let mut tt = TranspositionTable::new(1);
    let stopper = Stopper::new();
    let mut ss = SearchState::new();
    assert_eq!(alphabeta::search(&mut ss, &mut tt, &stopper, &mut pos, 2, EVAL_MIN, EVAL_MAX, 0), EVAL_DRAW);
}

#[test]
fn a_raised_signal_stops_the_search() {
    let mut pos = Position::startpos();
    let mut tt = TranspositionTable::new(1);
    let signal = AtomicBool::new(true);
    let mut stopper = Stopper::new();
    stopper.at_signal(&signal);
    let mut ss = SearchState::new();
    assert_eq!(alphabeta::search(&mut ss, &mut tt, &stopper, &mut pos, 3, EVAL_MIN, EVAL_MAX, 0), 0);
    assert_eq!(ss.report.nodes, 0);
}

#[test]
fn stopper_decisions() {
    let mut stopper = Stopper::new();
    assert!(!stopper.decide(0, true, 1_000, None));
    stopper.at_nodes(Some(100));
    assert!(stopper.decide(256, false, 0, None));
    assert!(!stopper.decide(257, false, 0, None));
    assert!(!stopper.decide(0, false, 0, None));
    stopper.at_eval(Some(500));
    assert!(stopper.decide(0, false, 0, Some(-600)));
    assert!(!stopper.decide(0, false, 0, Some(499)));
    stopper.at_time(Some(TimeLimit::fixed(1_000)));
    assert!(stopper.decide(0, false, 1_001, None));
    assert!(!stopper.decide(0, false, 1_000, None));
}

#[test]
fn sanitise_cuts_the_variation_at_a_repetition() {
    let pos = parse_fen("4k3/8/8/8/8/8/8/4K2N w - - 10 20");
    let cycle = [
        make_move(Piece::WN, "h1", "g3", None),
        make_move(Piece::BK, "e8", "d8", None),
        make_move(Piece::WN, "g3", "h1", None),
        make_move(Piece::BK, "d8", "e8", None),
    ];
    let moves: Vec<Move> = cycle
        .iter()
        .chain(cycle.iter())
        .chain(cycle.iter())
        .enumerate()
        .map(|(i, mv)| Move {
            half_move_clock: 10 + i as u8,
            ..*mv
        })
        .collect();
    let line = move_list(&moves);
    let (kept, eval) = sanitise_pv(&pos, &line, 42);
    assert_eq!(eval, EVAL_DRAW);
    assert_eq!(kept.len(), 8);
}

#[test]
fn sanitise_keeps_a_variation_without_draws() {
    let pos = parse_fen(START_POS_FEN);
    let mv = Move {
        castling_rights: CastlingRights::all(),
        ..make_move(Piece::WP, "e2", "e4", None)
    };
    let line = move_list(&[mv]);
    let (kept, eval) = sanitise_pv(&pos, &line, 17);
    assert_eq!(eval, 17);
    assert_eq!(kept.len(), 1);
}

#[test]
fn transposition_table_stores_and_probes() {
    let mut tt = TranspositionTable::new(1);
    assert!(tt.probe(12345).is_none());
    tt.store(12345, 4, 77, Bound::Lower, None);
    let entry = tt.probe(12345).unwrap();
    assert_eq!(entry.depth, 4);
    assert_eq!(entry.eval, 77);
    assert_eq!(entry.bound, Bound::Lower);
    // A shallower result of the same search does not replace a deeper one.
    tt.store(12345, 2, 5, Bound::Exact, None);
    assert_eq!(tt.probe(12345).unwrap().depth, 4);
    // Blank entries carry age 0, the age of a fresh table, and count as used.
    assert_eq!(tt.usage(), 1000);
    tt.age();
    assert_eq!(tt.usage(), 0);
    tt.store(12345, 1, 9, Bound::Upper, None);
    assert_eq!(tt.probe(12345).unwrap().eval, 9);
    tt.store(5, 1, 9, Bound::Upper, None);
    assert_eq!(tt.usage(), 1);
    tt.clear();
    assert!(tt.probe(12345).is_none());
}

#[test]
fn entry_size_matches_its_layout() {
    assert_eq!(
        std::mem::size_of::<anodos::search::tt::Entry>(),
        anodos::search::tt::ENTRY_BYTES
    );
}

#[test]
fn mate_scores_are_stored_from_the_root() {
    let mate_in_3_plies = EVAL_MATE - 3;
    assert_eq!(eval_in(mate_in_3_plies, 2), EVAL_MATE - 1);
    assert_eq!(eval_out(eval_in(mate_in_3_plies, 2), 2), mate_in_3_plies);
    assert_eq!(eval_out(eval_in(-mate_in_3_plies, 5), 5), -mate_in_3_plies);
    assert_eq!(eval_in(123, 7), 123);
}

#[test]
fn killers_keep_the_last_two_moves() {
    let a = make_move(Piece::WP, "a2", "a3", None);
    let b = make_move(Piece::WP, "b2", "b3", None);
    let mut killers = KillerMoves::new();
    assert_eq!(killers.probe(3, 0), None);
    killers.store(3, &a);
    killers.store(3, &a);
    assert_eq!(killers.probe(3, 0), Some(a));
    assert_eq!(killers.probe(3, 1), None);
    killers.store(3, &b);
    assert_eq!(killers.probe(3, 0), Some(b));
    assert_eq!(killers.probe(3, 1), Some(a));
    assert!(killers.is_killer(3, &a));
    assert!(!killers.is_killer(4, &a));
}

#[test]
fn history_scores_approach_the_bound() {
    let mut history = HistoryTable::new();
    let to = sq("e4");
    history.store(16384, Piece::WN, to);
    assert_eq!(history.probe(Piece::WN, to), 16384);
    history.store(100, Piece::WN, to);
    assert_eq!(history.probe(Piece::WN, to), 16384);
    history.store(-8192, Piece::WN, to);
    assert_eq!(history.probe(Piece::WN, to), 16384 - 8192 - 8192);
    assert_eq!(history.probe(Piece::BN, to), 0);
}

#[test]
fn principal_variations_grow_from_the_child() {
    let a = make_move(Piece::WP, "a2", "a3", None);
    let b = make_move(Piece::BP, "a7", "a6", None);
    let mut pv = PvTable::new();
    pv.update(1, b);
    pv.update(0, a);
    assert_eq!(pv.root().len(), 2);
    assert_eq!(pv.root().get(0), a);
    assert_eq!(pv.root().get(1), b);
    pv.clear(0);
    assert_eq!(pv.root().len(), 0);
}

#[test]
fn time_limits_from_the_clock() {
    let ms = 1_000_000u64;
    assert_eq!(TimeLimit::fixed(5 * ms).hard(), 5 * ms);
    assert_eq!(TimeLimit::dynamic(0, None), TimeLimit::Fixed(0));
    assert_eq!(TimeLimit::dynamic(500_000, Some(1_000_000)), TimeLimit::Fixed(500_000));
    assert!(matches!(TimeLimit::dynamic(1_000_000, None), TimeLimit::Dynamic { .. }));
    let limit = TimeLimit::dynamic(60_000 * ms, Some(1_000 * ms));
    assert_eq!(
        limit,
        TimeLimit::Dynamic {
            soft: 2_000 * ms + 750 * ms,
            hard: 8_250 * ms
        }
    );
    assert!(limit.hard() >= 2_750 * ms);
}

#[test]
fn logarithms_and_pruning_thresholds() {
    assert_eq!(log2(1), 0);
    assert_eq!(log2(2), 1);
    assert_eq!(log2(3), 1);
    assert_eq!(log2(255), 7);
    assert_eq!(lmp_threshold(1), 5);
    assert_eq!(lmp_threshold(4), 21);
}

#[test]
fn report_mate_distances() {
    let mut report = Report::new();
    assert_eq!(report.moves_until_mate(), None);
    report.pv = Some((MoveList::new(), EVAL_MATE - 3));
    assert_eq!(report.moves_until_mate(), Some(3));
    report.pv = Some((MoveList::new(), -(EVAL_MATE - 2)));
    assert_eq!(report.moves_until_mate(), Some(2));
    report.pv = Some((MoveList::new(), 150));
    assert_eq!(report.moves_until_mate(), None);
    assert_eq!(report.best_move(), None);
}

#[test]
fn a_forced_move_is_reported_alone() {
    let mv = make_move(Piece::BK, "g8", "g7", None);
    let report = anodos::search::iterate::forced_report(mv);
    assert_eq!(report.best_move(), Some(mv));
    assert_eq!(report.eval(), Some(0));
    assert_eq!(report.nodes, 0);
}

#[test]
fn a_fifty_move_draw_is_a_draw_at_any_depth() {
    let mut pos = parse_fen("4k3/8/8/3q4/4P3/8/8/4K3 w - - 100 80");
    let mut tt = TranspositionTable::new(1);
    let stopper = Stopper::new();
    let mut ss = SearchState::new();
    assert_eq!(alphabeta::search(&mut ss, &mut tt, &stopper, &mut pos, 3, EVAL_MIN, EVAL_MAX, 1), EVAL_DRAW);
    assert_eq!(search_iteration(&mut ss, &mut tt, &stopper, &mut pos, 4, 50), EVAL_DRAW);
}

#[test]
fn depth_zero_is_the_quiescence_search() {
    let mut pos = parse_fen("4k3/8/8/3q4/4P3/8/8/4K3 w - - 0 1");
    let mut report = Report::new();
    let q = quiescence::search(&mut pos, -1_000_000, 1_000_000, &mut report);
    let mut tt = TranspositionTable::new(1);
    let stopper = Stopper::new();
    let mut ss = SearchState::new();
    assert_eq!(alphabeta::search(&mut ss, &mut tt, &stopper, &mut pos, 0, -1_000_000, 1_000_000, 0), q);
    assert_eq!(alphabeta::search(&mut ss, &mut tt, &stopper, &mut pos, 0, q + 1, q + 7, 0), q + 1);
}

#[test]
fn an_iteration_on_a_mated_side_gives_the_mate_score() {
    let mut pos = parse_fen("R5k1/5ppp/8/8/8/8/8/6K1 b - - 0 1");
    let mut tt = TranspositionTable::new(1);
    let stopper = Stopper::new();
    let mut ss = SearchState::new();
    assert_eq!(search_iteration(&mut ss, &mut tt, &stopper, &mut pos, 5, 30), -EVAL_MATE);
}

#[test]
fn a_fresh_search_state_is_empty() {
    let ss = SearchState::new();
    assert_eq!(ss.report.depth, 0);
    assert_eq!(ss.report.nodes, 0);
    assert_eq!(ss.report.tt_usage, 0);
    assert!(ss.report.pv.is_none());
    assert_eq!(ss.killers.probe(0, 0), None);
    assert_eq!(ss.history.probe(Piece::WN, sq("f3")), 0);
    assert_eq!(ss.pv.root().len(), 0);
}

#[test]
fn a_stalemated_side_gets_a_draw_from_an_iteration() {
    let mut pos = parse_fen("7k/5Q2/6K1/8/8/8/8/8 b - - 0 1");
    let mut tt = TranspositionTable::new(1);
    let stopper = Stopper::new();
    let mut ss = SearchState::new();
    assert_eq!(search_iteration(&mut ss, &mut tt, &stopper, &mut pos, 1, 300), EVAL_DRAW);
    assert_eq!(alphabeta::search(&mut ss, &mut tt, &stopper, &mut pos, 1, EVAL_MIN, EVAL_MAX, 2), EVAL_DRAW);
}

fn best_quiet_reply(pos: &mut Position) -> Option<i32> {
    let moves = anodos::movegen::generate_all_moves(pos);
    let mover = pos.colour_to_move;
    let mut best: Option<i32> = None;
    for i in 0..moves.len() {
        let mv = moves.get(i);
        pos.do_move(&mv);
        if !anodos::movegen::attacks::is_in_check(mover, &pos.board) {
            let mut report = Report::new();
            let v = -quiescence::search(pos, -1_000_000, 1_000_000, &mut report);
            best = Some(match best {
                Some(b) if b >= v => b,
                _ => v,
            });
        }
        pos.undo_move(&mv);
    }
    best
}

#[test]
fn a_side_in_check_at_depth_one_gets_its_best_reply() {
    let mut pos = parse_fen("4k3/8/8/8/8/8/3q4/4K2R w - - 0 1");
    let expected = best_quiet_reply(&mut pos).unwrap();
    let mut tt = TranspositionTable::new(1);
    let stopper = Stopper::new();
    let mut ss = SearchState::new();
    assert_eq!(alphabeta::search(&mut ss, &mut tt, &stopper, &mut pos, 1, -1_000_000, 1_000_000, 0), expected);
    assert_eq!(alphabeta::search(&mut ss, &mut tt, &stopper, &mut pos, 0, -1_000_000, 1_000_000, 0), expected);
    assert_eq!(
        alphabeta::search(&mut ss, &mut tt, &stopper, &mut pos, 1, expected + 3, expected + 9, 0),
        expected + 3
    );
    let clamped = expected.clamp(EVAL_MIN, EVAL_MAX);
    assert_eq!(search_iteration(&mut ss, &mut tt, &stopper, &mut pos, 1, 0), clamped);
}

#[test]
fn a_rejected_shallow_store_keeps_the_deeper_entry() {
    let mut tt = TranspositionTable::new(1);
    tt.store(42, 5, 100, Bound::Exact, None);
    tt.store(42, 3, 200, Bound::Lower, None);
    let e = tt.probe(42).unwrap();
    assert_eq!(e.depth, 5);
    assert_eq!(e.eval, 100);
    assert!(matches!(e.bound, Bound::Exact));
    assert!(e.mv.is_none());
    assert!(tt.probe(43).is_none());
}

#[test]
fn a_recorded_iteration_keeps_the_line_and_its_value() {
    let mut pos = Position::startpos();
    let mut tt = TranspositionTable::new(1);
    let stopper = Stopper::new();
    let mut ss = SearchState::new();
    let eval = search_iteration(&mut ss, &mut tt, &stopper, &mut pos, 2, 0);
    let line_len = ss.pv.root().len();
    record_iteration(&mut ss, &tt, &pos, 2, eval);
    let (moves, value) = ss.report.pv.as_ref().unwrap();
    assert_eq!(*value, eval);
    assert_eq!(moves.len(), line_len);
}

#[test]
fn a_search_result_is_the_one_the_table_holds() {
    let mut pos = Position::startpos();
    let mut tt = TranspositionTable::new(1);
    let stopper = Stopper::new();
    let mut ss = SearchState::new();
    let r = alphabeta::search(&mut ss, &mut tt, &stopper, &mut pos, 3, EVAL_MIN, EVAL_MAX, 0);
    let e = tt.probe(pos.compute_key()).unwrap();
    assert_eq!(e.depth, 3);
    assert!(matches!(e.bound, Bound::Exact));
    assert_eq!(e.eval, r);
    // With a narrow window the result is a bound or a value that the table backs.
    let mut tt2 = TranspositionTable::new(1);
    let mut ss2 = SearchState::new();
    let (alpha, beta) = (r - 50, r - 10);
    let v = alphabeta::search(&mut ss2, &mut tt2, &stopper, &mut pos, 3, alpha, beta, 0);
    let e2 = tt2.probe(pos.compute_key()).unwrap();
    assert!(
        (matches!(e2.bound, Bound::Exact) && e2.eval == v)
            || (matches!(e2.bound, Bound::Lower) && e2.eval >= beta && v == beta)
            || (matches!(e2.bound, Bound::Upper) && e2.eval <= alpha && v == alpha)
    );
}

#[test]
fn the_capture_square_of_a_move() {
    let quiet = make_move(Piece::WN, "g1", "f3", None);
    assert_eq!(quiet.capture_square(), None);
    let capture = make_move(Piece::WN, "g1", "f3", Some(Piece::BP));
    assert_eq!(capture.capture_square(), Some(sq("f3")));
    let en_passant = Move { is_en_passant: true, ..make_move(Piece::WP, "d5", "e6", Some(Piece::BP)) };
    assert_eq!(en_passant.capture_square(), Some(sq("e5")));
    let black_en_passant = Move { is_en_passant: true, ..make_move(Piece::BP, "d4", "e3", Some(Piece::WP)) };
    assert_eq!(black_en_passant.capture_square(), Some(sq("e4")));
    let off_board = Move { is_en_passant: true, ..make_move(Piece::WP, "d2", "e1", Some(Piece::BP)) };
    assert_eq!(off_board.capture_square(), None);
}
