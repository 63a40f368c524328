use chesnaught::board::Board;
use chesnaught::color::Color;
use chesnaught::lan::Lan;
use chesnaught::uci::input::{Input, Position};
use chesnaught::uci::output::{IdField, Output};
use chesnaught::uci::session::{best_move_reply, config, Action, Session, SessionError};

fn lan(s: &str) -> Lan {
    Lan::parse(s).unwrap()
}

fn debug_texts(actions: &[Action]) -> Vec<String> {
    actions
        .iter()
        .filter_map(|a| match a {
            Action::Debug(m) => Some(m.clone()),
            _ => None,
        })
        .collect()
}

fn board_text(board: &Board) -> String {
    chesnaught::fen::Fen { board: board.as_hashable(), half_move: 0, full_move: 1 }.to_text()
}

#[test]
fn parse_position() {
    let input = Input::from_str("position startpos moves e2e4").unwrap();
    assert_eq!(
        input,
        Input::Position {
            position: Position::StartPos,
            moves: vec![Lan::parse("e2e4").unwrap()]
        }
    );
}

#[test]
fn session_starts_on_the_standard_position() {
    let session = Session::new(64);
    assert!(!session.debug);
    assert!(session.new_game);
    assert_eq!(session.move_count, 0);
    assert_eq!(
        board_text(&session.board),
        "rnbqkbnr/pppppppp/8/8/8/8/PPPPPPPP/RNBQKBNR w KQkq - 0 1"
    );
}

#[test]
fn blank_line_does_nothing() {
    let mut session = Session::new(64);
    let actions = session.receive("   \t ").unwrap();
    assert!(actions.is_empty());
}

#[test]
fn is_ready_answers_ready_ok() {
    let mut session = Session::new(64);
    let actions = session.receive("isready").unwrap();
    assert_eq!(actions.len(), 2);
    assert!(matches!(actions[0], Action::Ready));
    assert!(matches!(actions[1], Action::Print(Output::ReadyOk)));
}

#[test]
fn position_sets_up_a_board_then_plays_on() {
    let mut session = Session::new(64);
    let actions = session.receive("ucinewgame").unwrap();
    assert!(matches!(actions[0], Action::SetBoard(_)));
    let actions = session.receive("position startpos moves e2e4").unwrap();
    assert_eq!(actions.len(), 1);
    assert!(matches!(actions[0], Action::SetBoard(_)));
    assert_eq!(session.move_count, 1);
    assert!(!session.new_game);
    assert_eq!(session.board.current_player, Color::Black);
    let actions = session.receive("position startpos moves e2e4 e7e5 g1f3").unwrap();
    assert_eq!(actions.len(), 2);
    assert!(matches!(actions[0], Action::MovePiece(m) if m == lan("e7e5")));
    assert!(matches!(actions[1], Action::MovePiece(m) if m == lan("g1f3")));
    assert_eq!(session.move_count, 3);
    assert_eq!(
        board_text(&session.board),
        "rnbqkbnr/pppp1ppp/8/4p3/4P3/5N2/PPPP1PPP/RNBQKB1R b KQkq - 0 1"
    );
}

#[test]
fn position_without_new_game_sets_up_each_time() {
    let mut session = Session::new(64);
    session.receive("position startpos moves e2e4").unwrap();
    let actions = session.receive("position startpos moves d2d4").unwrap();
    assert!(matches!(actions[0], Action::SetBoard(_)));
    assert_eq!(
        board_text(&session.board),
        "rnbqkbnr/pppppppp/8/8/3P4/8/PPP1PPPP/RNBQKBNR b KQkq - 0 1"
    );
}

#[test]
fn position_with_an_illegal_move_is_refused() {
    let mut session = Session::new(64);
    let before = board_text(&session.board);
    let r = session.receive("position startpos moves e2e5");
    assert!(matches!(r, Err(SessionError::IllegalMove(m)) if m == lan("e2e5")));
    assert_eq!(board_text(&session.board), before);
    assert!(session.new_game);
}

#[test]
fn position_with_an_unsound_fen_is_refused() {
    let mut session = Session::new(64);
    let r = session.receive("position fen 8/8/8/8/8/8/8/8 w - - 0 1");
    assert!(matches!(
        r,
        Err(SessionError::InvalidBoard(chesnaught::setup::InvalidBoard::NoKing))
    ));
}

#[test]
fn position_with_fewer_moves_is_refused() {
    let mut session = Session::new(64);
    session.receive("ucinewgame").unwrap();
    session.receive("position startpos moves e2e4 e7e5").unwrap();
    let r = session.receive("position startpos moves e2e4");
    assert!(matches!(r, Err(SessionError::MovesMissing)));
    assert_eq!(session.move_count, 2);
}

#[test]
fn hash_option_sets_the_table_size() {
    let mut session = Session::new(64);
    let actions = session.receive("setoption name Hash value 128").unwrap();
    assert_eq!(actions.len(), 1);
    assert!(matches!(actions[0], Action::SetHashMaxCapacity(2097152)));
    assert_eq!(session.hash_max_capacity, 2097152);
}

#[test]
fn hash_option_holds_at_the_largest_size() {
    let mut session = Session::new(1);
    let actions = session.receive("setoption name Hash value 18446744073709551615").unwrap();
    assert!(matches!(actions[0], Action::SetHashMaxCapacity(n) if n == usize::MAX));
}

#[test]
fn thread_option_sets_the_threads() {
    let mut session = Session::new(64);
    let actions = session.receive("setoption name Thread value 4").unwrap();
    assert!(matches!(actions[0], Action::SetThread(4)));
}

#[test]
fn invalid_thread_count_is_reported_when_debugging() {
    let mut session = Session::new(64);
    session.receive("debug on").unwrap();
    let actions = session.receive("setoption name Thread value 0").unwrap();
    assert_eq!(
        debug_texts(&actions),
        vec![
            "set `Thread` to an invalid value; ignoring".to_string(),
            "error: number would be zero for non-zero type".to_string(),
        ]
    );
    let actions = session.receive("setoption name Thread").unwrap();
    assert_eq!(debug_texts(&actions), vec!["set `Thread` without value; ignoring".to_string()]);
}

#[test]
fn invalid_options_are_silent_without_debug() {
    let mut session = Session::new(64);
    let actions = session.receive("setoption name Thread value x").unwrap();
    assert!(actions.is_empty());
    let actions = session.receive("setoption name Foo value 1").unwrap();
    assert!(actions.is_empty());
}

#[test]
fn unknown_option_is_reported_when_debugging() {
    let mut session = Session::new(64);
    session.receive("debug on").unwrap();
    let actions = session.receive("setoption name Foo value 1").unwrap();
    assert_eq!(debug_texts(&actions), vec!["unknown option `Foo`; ignoring".to_string()]);
}

#[test]
fn ponder_option() {
    let mut session = Session::new(64);
    session.receive("setoption name Ponder value true").unwrap();
    assert!(session.ponder);
    session.receive("debug on").unwrap();
    let actions = session.receive("setoption name Ponder value yes").unwrap();
    assert_eq!(
        debug_texts(&actions),
        vec![
            "set `Ponder` to an invalid value; ignoring".to_string(),
            "error: provided string was not `true` or `false`".to_string(),
        ]
    );
    assert!(session.ponder);
    session.receive("setoption name Ponder value false").unwrap();
    assert!(!session.ponder);
}

#[test]
fn clear_hash_option() {
    let mut session = Session::new(64);
    let actions = session.receive("setoption name Clear Hash").unwrap();
    assert!(matches!(actions[0], Action::ClearHash));
}

#[test]
fn chess960_option_is_checked_when_debugging() {
    let mut session = Session::new(64);
    session.receive("debug on").unwrap();
    let actions = session.receive("setoption name UCI_Chess960 value true").unwrap();
    assert!(actions.is_empty());
    let actions = session.receive("setoption name UCI_Chess960 value maybe").unwrap();
    assert_eq!(
        debug_texts(&actions),
        vec!["set UCI_Chess960 to invalid value; ignoring".to_string()]
    );
}

#[test]
fn go_asks_for_a_search() {
    let mut session = Session::new(64);
    session.receive("setoption name Ponder value true").unwrap();
    let actions = session.receive("go wtime 1000 btime 2000 mate 3 ponder").unwrap();
    assert_eq!(actions.len(), 1);
    match &actions[0] {
        Action::Calculate(search) => {
            assert_eq!(search.mate, Some(6));
            assert_eq!(search.current_player, Color::White);
            assert!(search.ponder_enabled);
            assert!(search.ponder_mode);
            assert_eq!(search.go.w_time, Some(1000));
        }
        _ => panic!("expected a search"),
    }
    let kept = session.last_go.clone().unwrap();
    assert_eq!(kept.w_time, Some(1000));
    assert_eq!(kept.mate, None);
    assert!(!kept.ponder);
}

#[test]
fn go_mate_for_black_is_one_ply_sooner() {
    let mut session = Session::new(64);
    session.receive("position startpos moves e2e4").unwrap();
    let actions = session.receive("go mate 3").unwrap();
    assert!(matches!(&actions[0], Action::Calculate(s) if s.mate == Some(5)));
}

#[test]
fn go_mate_too_far_is_refused() {
    let mut session = Session::new(64);
    let r = session.receive("go mate 3000000000");
    assert!(matches!(r, Err(SessionError::MateTooFar)));
    assert!(session.last_go.is_none());
}

#[test]
fn go_reports_unsupported_limits_when_debugging() {
    let mut session = Session::new(64);
    session.receive("debug on").unwrap();
    let actions = session.receive("go searchmoves e2e4 nodes 100").unwrap();
    assert_eq!(
        debug_texts(&actions),
        vec![
            "`go searchmoves` is unsupported; ignoring".to_string(),
            "`go nodes` is unsupported; ignoring".to_string(),
        ]
    );
}

#[test]
fn ponder_hit_needs_a_search() {
    let mut session = Session::new(64);
    assert!(matches!(session.receive("ponderhit"), Err(SessionError::NothingToPonder)));
    session.receive("go wtime 500 ponder").unwrap();
    let actions = session.receive("ponderhit").unwrap();
    match &actions[0] {
        Action::PonderHit(search) => {
            assert!(!search.ponder_mode);
            assert_eq!(search.go.w_time, Some(500));
        }
        _ => panic!("expected a ponder hit"),
    }
}

#[test]
fn unreadable_line_is_reported_when_debugging() {
    let mut session = Session::new(64);
    let actions = session.receive("foo").unwrap();
    assert!(actions.is_empty());
    session.receive("debug on").unwrap();
    let actions = session.receive("foo").unwrap();
    assert_eq!(
        debug_texts(&actions),
        vec![
            "error: unknown command `foo`".to_string(),
            "error: unknown command `oo`".to_string(),
            "error: unknown command `o`".to_string(),
        ]
    );
}

#[test]
fn unrecognized_parts_are_reported_when_debugging() {
    let mut session = Session::new(64);
    session.receive("debug on").unwrap();
    let actions = session.receive("xx isready").unwrap();
    assert_eq!(
        debug_texts(&actions),
        vec![
            "warning: there are parts of input that aren't recognized".to_string(),
            "recognized input: isready".to_string(),
        ]
    );
    assert!(matches!(actions[2], Action::Ready));
}

#[test]
fn register_is_ignored() {
    let mut session = Session::new(64);
    session.receive("debug on").unwrap();
    let actions = session.receive("register later").unwrap();
    assert_eq!(debug_texts(&actions), vec!["`register` is ignored".to_string()]);
}

#[test]
fn stop_and_quit() {
    let mut session = Session::new(64);
    assert!(matches!(session.receive("stop").unwrap()[0], Action::Stop));
    assert!(matches!(session.receive("quit").unwrap()[0], Action::Quit));
}

#[test]
fn config_lists_the_options() {
    let outputs = config("chesnaught 0.1.0", "someone", "about");
    assert_eq!(outputs.len(), 9);
    assert_eq!(outputs[0], Output::Id { field: IdField::Name, value: "chesnaught 0.1.0" });
    assert_eq!(outputs[8], Output::UciOk);
    assert_eq!(outputs[2].to_text(), "option name Thread type spin default 1 min 1 max 2147483647");
    assert_eq!(outputs[4].to_text(), "option name Clear Hash type button");
}

#[test]
fn best_move_reply_follows_the_ponder_settings() {
    let m = Some(lan("e2e4"));
    let p = Some(lan("e7e5"));
    assert_eq!(best_move_reply(true, true, m, p), None);
    assert_eq!(
        best_move_reply(true, false, m, p),
        Some(Output::BestMove { movement: m, ponder: p })
    );
    assert_eq!(
        best_move_reply(false, false, m, p),
        Some(Output::BestMove { movement: m, ponder: None })
    );
    assert_eq!(best_move_reply(false, false, m, p).unwrap().to_text(), "bestmove e2e4");
    assert_eq!(best_move_reply(true, false, None, None).unwrap().to_text(), "bestmove 0000");
}
