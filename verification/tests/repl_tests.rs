use chesnaught::color::Color;
use chesnaught::coord::Coord;
use chesnaught::decimal::ParseIntError;
use chesnaught::fen::Fen;
use chesnaught::lan::Lan;
use chesnaught::mode::{Mode, ParseModeError};
use chesnaught::repl::{ParseReplError, Repl, ReplInput, ReplOutcome};

fn coord(s: &str) -> Coord {
    Coord::parse(s).unwrap()
}

fn shown(outcome: ReplOutcome) -> Vec<String> {
    match outcome {
        ReplOutcome::Shown(lines) => lines,
        other => panic!("expected shown lines, got {other:?}"),
    }
}

fn refused(outcome: ReplOutcome) -> Vec<String> {
    match outcome {
        ReplOutcome::Refused(lines) => lines,
        other => panic!("expected refused lines, got {other:?}"),
    }
}

#[test]
fn repl_commands_parse() {
    assert_eq!(ReplInput::parse("help"), Ok(ReplInput::Help));
    assert_eq!(ReplInput::parse("start chess960"), Ok(ReplInput::StartChess960));
    assert_eq!(ReplInput::parse("bot 3"), Ok(ReplInput::Bot(3)));
    assert_eq!(ReplInput::parse("bot x"), Err(ParseReplError::Int(ParseIntError::InvalidDigit)));
    assert_eq!(ReplInput::parse("e2"), Ok(ReplInput::Coord(coord("e2"))));
    assert_eq!(ReplInput::parse("e2e4"), Ok(ReplInput::Move(Lan::parse("e2e4").unwrap())));
    assert!(matches!(ReplInput::parse("import 8/8/8/8/8/8/8/8 w - - 0 1"), Ok(ReplInput::Import(_))));
    assert!(matches!(ReplInput::parse("zz"), Err(ParseReplError::Move(_))));
}

#[test]
fn repl_command_texts() {
    assert_eq!(ReplInput::Bot(12).to_text(), "bot 12");
    assert_eq!(ReplInput::Coord(coord("h8")).to_text(), "h8");
    let fen = Fen::parse("4k3/8/8/8/8/8/8/4K3 w - - 0 1").unwrap();
    assert_eq!(ReplInput::Import(fen).to_text(), "import 4k3/8/8/8/8/8/8/4K3 w - - 0 1");
}

#[test]
fn first_screen_shows_whose_turn_and_the_hint() {
    let mut repl = Repl::new();
    let screen = repl.screen();
    assert_eq!(repl.info, "white plays\ntype `help` for instructions\n");
    assert_eq!(repl.valid_moves.len(), 20);
    assert!(screen.contains("white plays"));
    assert!(!repl.update);
    assert!(!repl.first_time);
    repl.screen();
    assert_eq!(repl.info, "white plays\ntype `help` for instructions\n");
}

#[test]
fn selecting_a_piece_highlights_its_moves() {
    let mut repl = Repl::new();
    repl.screen();
    assert!(shown(repl.step("e2", 0)).is_empty());
    let mut targets = repl.highlighted.clone();
    targets.sort_by_key(|c| (c.x, c.y));
    assert_eq!(targets, vec![coord("e4"), coord("e3")]);
    assert_eq!(refused(repl.step("e7", 0)), vec!["Error: It is white's turn".to_string()]);
    assert_eq!(refused(repl.step("e4", 0)), vec!["Error: No piece found on e4".to_string()]);
}

#[test]
fn playing_a_move() {
    let mut repl = Repl::new();
    repl.screen();
    assert!(shown(repl.step(" e2e4 ", 0)).is_empty());
    assert_eq!(repl.highlighted, vec![coord("e2"), coord("e4")]);
    assert!(repl.update);
    assert_eq!(repl.board.current_player, Color::Black);
    repl.screen();
    assert_eq!(repl.info, "black plays\n");
    assert_eq!(
        refused(repl.step("e2e4", 0)),
        vec!["Error: e2e4 is an invalid move".to_string()]
    );
    assert_eq!(shown(repl.step("fen", 0)), vec![
        "rnbqkbnr/pppppppp/8/8/4P3/8/PPPP1PPP/RNBQKBNR b KQkq - 0 1".to_string()
    ]);
}

#[test]
fn unreadable_line_points_to_help() {
    let mut repl = Repl::new();
    repl.screen();
    assert_eq!(
        refused(repl.step("zz", 0)),
        vec![
            "Error: found `z`, characters from `a` to `h` were expected instead".to_string(),
            "for available command, enter `help`".to_string(),
        ]
    );
}

#[test]
fn help_flip_restart_and_quit() {
    let mut repl = Repl::new();
    repl.screen();
    let help = shown(repl.step("help", 0));
    assert_eq!(help.len(), 11);
    assert_eq!(help[0], "flip           - flip the board");
    assert_eq!(help[10], "bot <depth>    - let a bot play");
    shown(repl.step("flip", 0));
    assert_eq!(repl.view, Color::Black);
    shown(repl.step("e2e4", 0));
    shown(repl.step("restart", 0));
    assert_eq!(repl.board.current_player, Color::White);
    assert!(repl.highlighted.is_empty());
    assert!(matches!(repl.step("quit", 0), ReplOutcome::Quit));
    assert!(matches!(repl.step("bot 2", 0), ReplOutcome::Bot(2)));
}

#[test]
fn chess960_and_import() {
    let mut repl = Repl::new();
    repl.screen();
    shown(repl.step("start chess960", 959));
    assert_eq!(shown(repl.step("fen", 0)), vec![
        "nnrkrqbb/pppppppp/8/8/8/8/PPPPPPPP/NNRKRQBB w CEce - 0 1".to_string()
    ]);
    shown(repl.step("import 4k3/8/8/8/8/8/4P3/4K3 b - - 0 1", 0));
    repl.screen();
    assert_eq!(repl.info, "black plays\n");
    assert_eq!(
        refused(repl.step("import 4k3/8/8/8/8/8/8/8 w - - 0 1", 0)),
        vec!["Error: no kings found".to_string()]
    );
}

#[test]
fn finished_game_is_shown() {
    let mut repl = Repl::new();
    repl.screen();
    shown(repl.step("import 4k3/8/r7/r3K3/r7/8/8/8 w - - 0 1", 0));
    repl.screen();
    assert_eq!(repl.info, "black wins\n");
    assert!(repl.valid_moves.is_empty());
}

#[test]
fn modes() {
    assert_eq!(Mode::parse("uci"), Ok(Mode::Uci));
    assert_eq!(Mode::parse("fuzz"), Ok(Mode::Fuzz));
    assert_eq!(Mode::parse("repl "), Err(ParseModeError));
    assert_eq!(Mode::Repl.to_text(), "repl");
    assert_eq!(ParseModeError.to_text(), "provided string was not `uci`, `repl`, or `fuzz`");
}
