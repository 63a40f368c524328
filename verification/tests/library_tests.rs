use chesnaught::board::Board;
use chesnaught::board_display::{BoardDisplay, IndexableBoard};
use chesnaught::color::Color;
use chesnaught::coord::Coord;
use chesnaught::decimal::{parse_nonzero_usize, parse_usize, ParseIntError};
use chesnaught::fen::{Fen, ParseFenError};
use chesnaught::game_tree::AlphaBetaState;
use chesnaught::hashable::{ExceededPieces, HashableBoard};
use chesnaught::heuristics::{Estimated, PawnAdvancement, Score};
use chesnaught::lan::{Lan, ParseLanError};
use chesnaught::misc::{str_eq, trim};
use chesnaught::piece::{ColoredPieceKind, InvalidFenPiece, PieceKind};
use chesnaught::setup::InvalidBoard;
use chesnaught::simple_board::SimpleBoard;
use chesnaught::uci::input::{ParseInputError, ParsePositionError, Position};

fn coord(s: &str) -> Coord {
    Coord::parse(s).unwrap()
}

fn fen_text(board: &Board) -> String {
    Fen { board: board.as_hashable(), half_move: 0, full_move: 1 }.to_text()
}

fn chars(s: &str) -> Vec<char> {
    s.chars().collect()
}

fn estimated(material: i8) -> Score {
    Score::Estimated(Estimated {
        material,
        king_safety: 0,
        square_control: 0,
        pawn_advancement: PawnAdvancement::new([0; 8]),
    })
}

#[test]
fn chess960_first_and_last_positions() {
    let (b, n, r, q, k) = (PieceKind::Bishop, PieceKind::Knight, PieceKind::Rook, PieceKind::Queen, PieceKind::King);
    assert_eq!(PieceKind::chess960(0), [b, b, q, n, r, k, r, n]);
    assert_eq!(PieceKind::chess960(959), [n, n, r, k, r, q, b, b]);
}

#[test]
fn every_chess960_rank_follows_the_rules() {
    for id in 0..960u16 {
        let rank = PieceKind::chess960(id);
        let count = |k: PieceKind| rank.iter().filter(|&&p| p == k).count();
        assert_eq!(count(PieceKind::King), 1);
        assert_eq!(count(PieceKind::Queen), 1);
        assert_eq!(count(PieceKind::Rook), 2);
        assert_eq!(count(PieceKind::Bishop), 2);
        assert_eq!(count(PieceKind::Knight), 2);
        let bishops: Vec<usize> = (0..8).filter(|&i| rank[i] == PieceKind::Bishop).collect();
        assert_ne!(bishops[0] % 2, bishops[1] % 2);
        let rooks: Vec<usize> = (0..8).filter(|&i| rank[i] == PieceKind::Rook).collect();
        let king = (0..8).find(|&i| rank[i] == PieceKind::King).unwrap();
        assert!(rooks[0] < king && king < rooks[1]);
    }
}

#[test]
fn standard_starting_position() {
    let board = Board::starting_position();
    assert_eq!(
        fen_text(&board),
        "rnbqkbnr/pppppppp/8/8/8/8/PPPPPPPP/RNBQKBNR w KQkq - 0 1"
    );
    assert_eq!(board.valid_moves().unwrap().len(), 20);
    assert_eq!(
        board.index(coord("e1")),
        Some(ColoredPieceKind::new(Color::White, PieceKind::King))
    );
}

#[test]
fn chess960_starting_position() {
    let board = Board::chess960(0);
    assert_eq!(fen_text(&board), "bbqnrkrn/pppppppp/8/8/8/8/PPPPPPPP/BBQNRKRN w EGeg - 0 1");
    assert_eq!(board.current_player, Color::White);
    assert!(board.valid_moves().is_ok());
}

#[test]
fn position_board() {
    let board = Position::StartPos.board().unwrap();
    assert_eq!(board.valid_moves().unwrap().len(), 20);
    let fen = Fen::parse("4k3/8/8/8/8/8/8/4K3 b - - 0 1").unwrap();
    let board = Position::Fen(fen).board().unwrap();
    assert_eq!(board.current_player, Color::Black);
    let fen = Fen::parse("4k3/8/8/8/8/8/8/8 w - - 0 1").unwrap();
    assert!(matches!(Position::Fen(fen).board(), Err(InvalidBoard::NoKing)));
}

#[test]
fn error_texts() {
    assert_eq!(ParseIntError::Empty.to_text(), "cannot parse integer from empty string");
    assert_eq!(ParseIntError::Zero.to_text(), "number would be zero for non-zero type");
    assert_eq!(
        InvalidFenPiece('x').to_text(),
        "found `x`, expected one of `p`, `n`, `b`, `r`, `k`, `q`, or uppercase forms of these letters"
    );
    assert_eq!(ParseFenError::InvalidRowCount(7).to_text(), "found 7 rows, 8 were expected instead");
    assert_eq!(
        ParseFenError::InvalidSpaceCharacter('9').to_text(),
        "found 9, numbers from 1 to 8 were expected instead"
    );
    assert_eq!(
        ParseInputError::UnknownCommand("foo".to_string()).to_text(),
        "unknown command `foo`"
    );
    assert_eq!(
        ParseInputError::ParsePositionError(ParsePositionError::Unexpected('x')).to_text(),
        "unexpected x"
    );
    assert_eq!(ParseLanError::Unexpected('q').to_text(), "unexpected `q`");
    assert_eq!(InvalidBoard::ExceededPieces(ExceededPieces::King).to_text(), "found more than 1 kings");
    assert_eq!(
        InvalidBoard::PawnOnHomeRank.to_text(),
        "pawns cannot be on ranks 1 or 8"
    );
    assert_eq!(
        Fen::parse("4k3/8/8/8/8/8/8/4K3 w - - x 1").unwrap_err().to_text(),
        "invalid digit found in string"
    );
}

#[test]
fn usize_reading() {
    assert_eq!(parse_usize(&chars("+42")), Ok(42));
    assert_eq!(parse_usize(&chars("")), Err(ParseIntError::Empty));
    assert_eq!(parse_usize(&chars("4x")), Err(ParseIntError::InvalidDigit));
    assert_eq!(parse_nonzero_usize(&chars("0")), Err(ParseIntError::Zero));
    assert_eq!(parse_nonzero_usize(&chars("7")), Ok(7));
}

#[test]
fn trimming_and_comparing() {
    assert_eq!(trim("  go \t\n"), "go");
    assert_eq!(trim(" \u{3000} "), "");
    assert!(str_eq("Hash", "Hash"));
    assert!(!str_eq("Hash", "hash"));
}

#[test]
fn simple_board_rows_and_squares() {
    let mut grid = SimpleBoard([[0u8; 8]; 8]);
    grid.set(coord("b7"), 5);
    assert_eq!(*grid.index(coord("b7")), 5);
    assert_eq!(grid.copy_row(1)[1], 5);
    grid.row_mut(7)[0] = 9;
    assert_eq!(*grid.index(coord("a1")), 9);
    let rows = grid.into_rows();
    assert_eq!(rows.len(), 8);
    assert_eq!(rows[1][1], 5);
    let values = grid.into_positioned_values();
    assert_eq!(values.len(), 64);
    assert_eq!(values[9], (coord("b7"), 5));
    assert_eq!(values[56], (coord("a1"), 9));
}

#[test]
fn indexable_boards_agree() {
    let fen = Fen::parse("4k3/8/8/8/8/8/8/4K3 w - - 0 1").unwrap();
    let board = Board::try_from_hashable(fen.board).unwrap();
    let king = Some(ColoredPieceKind::new(Color::Black, PieceKind::King));
    assert_eq!(IndexableBoard::index(&board, coord("e8")), king);
    assert_eq!(IndexableBoard::index(&fen.board, coord("e8")), king);
    assert_eq!(IndexableBoard::index(&fen, coord("e8")), king);
    assert_eq!(IndexableBoard::index(&SimpleBoard(fen.board.board), coord("e8")), king);
    assert_eq!(IndexableBoard::index(&fen.board, coord("d8")), None);
}

#[test]
fn board_display_text() {
    let fen = Fen::parse("4k3/8/8/8/8/8/8/4K3 w - - 0 1").unwrap();
    let grid: HashableBoard = fen.board;
    let highlighted = [coord("a8")];
    let display = BoardDisplay {
        board: &grid,
        view: Color::White,
        show_coordinates: true,
        highlighted: &highlighted,
        info: "white plays\nline two\r\n",
    };
    let text = display.to_text();
    let lines: Vec<&str> = text.split('\n').collect();
    assert_eq!(lines.len(), 10);
    assert!(lines[0].starts_with("\x1b[30;103m  \x1b[0m\x1b[30;47m  \x1b[0m"));
    assert!(lines[0].ends_with("\x1b[30;47m  \x1b[0m8  white plays"));
    assert!(lines[0].contains("\u{265a} "));
    assert!(lines[1].ends_with("7  line two"));
    assert!(lines[2].ends_with("6"));
    assert_eq!(lines[8], "a b c d e f g h");
    assert_eq!(lines[9], "");
    let plain = BoardDisplay {
        board: &grid,
        view: Color::Black,
        show_coordinates: false,
        highlighted: &[],
        info: "",
    };
    let text = plain.to_text();
    assert_eq!(text.split('\n').count(), 9);
    assert!(text.starts_with("\x1b[30;107m  \x1b[0m"));
}

#[test]
fn alpha_beta_for_white_raises_alpha_and_cuts_at_beta() {
    let mut state = AlphaBetaState::new(Color::White, Score::Win(Color::Black), estimated(5));
    assert_eq!(state.score, Score::Win(Color::Black));
    assert!(!state.set(estimated(2)));
    assert_eq!(state.score, estimated(2));
    assert_eq!(state.alpha, estimated(2));
    assert!(!state.set(estimated(1)));
    assert_eq!(state.score, estimated(2));
    assert!(state.set(estimated(5)));
    assert_eq!(state.score, estimated(5));
    assert_eq!(state.alpha, estimated(2));
}

#[test]
fn alpha_beta_for_black_lowers_beta_and_cuts_at_alpha() {
    let mut state = AlphaBetaState::new(Color::Black, estimated(-5), Score::Win(Color::White));
    assert_eq!(state.score, Score::Win(Color::White));
    assert!(!state.set(estimated(3)));
    assert_eq!(state.beta, estimated(3));
    assert!(state.set(Score::Win(Color::Black)));
    assert_eq!(state.score, Score::Win(Color::Black));
    assert_eq!(state.beta, estimated(3));
}

#[test]
fn move_text_round_trip() {
    let lan = Lan::parse("e7e8q").unwrap();
    assert_eq!(lan.to_text(), "e7e8q");
}

#[test]
fn aligned_pieces_give_the_squares_between() {
    assert_eq!(coord("c1").is_aligned_with_bishop(coord("f4")), Some(vec![coord("d2"), coord("e3")]));
    assert_eq!(coord("c1").is_aligned_with_bishop(coord("c4")), None);
    assert_eq!(coord("a1").is_aligned_with_rook(coord("a4")), Some(vec![coord("a2"), coord("a3")]));
    assert_eq!(coord("a1").is_aligned_with_rook(coord("b2")), None);
    assert_eq!(coord("a1").is_aligned_with_rook(coord("a1")), None);
    assert_eq!(coord("e4").is_aligned_with_queen(coord("h7")), Some(vec![coord("f5"), coord("g6")]));
    assert_eq!(coord("e4").is_aligned_with_queen(coord("e6")), Some(vec![coord("e5")]));
    assert_eq!(coord("a1").is_aligned_with_queen(coord("b3")), None);
}

#[test]
fn fen_export_writes_the_side_to_move_as_a_letter() {
    let board = Board::starting_position();
    assert_eq!(fen_text(&board), "rnbqkbnr/pppppppp/8/8/8/8/PPPPPPPP/RNBQKBNR w KQkq - 0 1");
    let fen = Fen::parse("4k3/8/8/8/8/8/8/4K3 b - - 3 9").unwrap();
    assert_eq!(fen.to_text(), "4k3/8/8/8/8/8/8/4K3 b - - 3 9");
}

#[test]
fn clone_and_move_gives_the_board_move_piece_leaves() {
    let board = Board::starting_position();
    let before = board.as_hashable();
    for movement in board.valid_moves().unwrap() {
        let moved = board.clone_and_move(&movement);
        let mut played = board;
        played.move_piece(&movement);
        assert_eq!(moved.as_hashable(), played.as_hashable());
        assert_eq!(board.as_hashable(), before);
    }
}

#[test]
fn a_line_may_start_behind_its_square() {
    let east = chesnaught::coord::Vector { x: 1, y: 0 };
    let line = coord("c1").line(east, -2);
    assert_eq!(line, vec![coord("a1"), coord("b1"), coord("c1"), coord("d1"), coord("e1"), coord("f1"), coord("g1"), coord("h1")]);
    assert_eq!(coord("c1").line(east, -3), vec![]);
    assert_eq!(coord("c1").line(east, 9), vec![]);
}

#[test]
fn the_start_has_twenty_different_moves() {
    let board = Board::starting_position();
    let moves = board.valid_moves().unwrap();
    assert_eq!(moves.len(), 20);
    for i in 0..moves.len() {
        for j in 0..i {
            assert_ne!(moves[i], moves[j]);
        }
    }
}

#[test]
fn fitting_castling_rights_never_adds_any() {
    let mut grid = Fen::parse("4k3/8/8/8/8/8/8/R3K3 w KQ - 0 1").unwrap().board;
    let before = grid.castling_right.all(Color::White).len();
    grid.fix_castling_rights();
    let after = grid.castling_right.all(Color::White);
    assert!(after.len() <= before);
    assert_eq!(after, vec![0]);
    assert!(grid.castling_right.all(Color::Black).is_empty());
}

#[test]
fn the_chess960_ranks_are_all_different() {
    let mut seen = std::collections::HashSet::new();
    for id in 0..960u16 {
        assert!(seen.insert(PieceKind::chess960(id)));
    }
    assert_eq!(seen.len(), 960);
}

#[test]
fn a_move_empties_its_square_and_fills_its_destination() {
    let board = Board::try_from_hashable(Fen::parse("4k3/1P6/8/8/8/p7/8/4K2R w K - 0 1").unwrap().board).unwrap();
    for movement in board.valid_moves().unwrap() {
        let lan = movement.as_lan(&board);
        let piece = board.index(lan.origin).unwrap();
        let mut played = board;
        played.move_piece(&movement);
        let landed = match lan.promotion {
            Some(kind) => ColoredPieceKind::new(Color::White, kind),
            None => piece,
        };
        if lan.destination == coord("g1") && piece.piece == PieceKind::King {
            assert_eq!(played.index(coord("g1")), Some(piece));
            assert_eq!(played.index(coord("f1")), Some(ColoredPieceKind::new(Color::White, PieceKind::Rook)));
        } else {
            assert_eq!(played.index(lan.origin), None);
            assert_eq!(played.index(lan.destination), Some(landed));
        }
    }
}

#[test]
fn a_move_keeps_a_sound_board_sound() {
    for fen in [
        "rnbqkbnr/pppppppp/8/8/8/8/PPPPPPPP/RNBQKBNR w KQkq - 0 1",
        "r3k2r/p1ppqpb1/bn2pnp1/3PN3/1p2P3/2N2Q1p/PPPBBPPP/R3K2R w KQkq - 0 1",
        "4k3/1P6/8/8/8/p7/8/4K2R w K - 0 1",
        "rnbqkbnr/ppp1p1pp/8/3pPp2/8/8/PPPP1PPP/RNBQKBNR w KQkq f6 0 3",
        "8/8/8/KPp4r/8/8/8/4k3 w - c6 0 1",
        "3k4/8/8/2pP4/8/8/8/B2QK3 w - c6 0 1",
        "4k3/8/8/8/8/8/8/R3K2R w KQ - 0 1",
    ] {
        let board = Board::try_from_hashable(Fen::parse(fen).unwrap().board).unwrap();
        assert_eq!(board.validate(), Ok(()));
        for movement in board.valid_moves().unwrap() {
            let mut played = board;
            played.move_piece(&movement);
            assert_eq!(played.validate(), Ok(()));
        }
    }
}

#[test]
fn castling_in_place_can_leave_the_king_attacked_by_what_the_rook_covered() {
    let board = Board::try_from_hashable(Fen::parse("4k3/8/8/8/8/8/8/rRK5 w B - 0 1").unwrap().board).unwrap();
    assert_eq!(board.validate(), Ok(()));
    let castling: Vec<_> = board.valid_moves().unwrap().into_iter().filter(|m| m.castling_rook.is_some()).collect();
    assert_eq!(castling.len(), 1);
    let mut played = board;
    played.move_piece(&castling[0]);
    assert_eq!(played.index(coord("c1")), Some(ColoredPieceKind::new(Color::White, PieceKind::King)));
    assert_eq!(played.index(coord("d1")), Some(ColoredPieceKind::new(Color::White, PieceKind::Rook)));
    assert_eq!(played.validate(), Err(InvalidBoard::NonPlayerInCheck));
}

#[test]
fn the_text_of_a_move_reads_back_as_the_move() {
    for fen in [
        "rnbqkbnr/ppp1p1pp/8/3pPp2/8/8/PPPP1PPP/RNBQKBNR w KQkq f6 0 3",
        "r3k2r/p1ppqpb1/bn2pnp1/3PN3/1p2P3/2N2Q1p/PPPBBPPP/R3K2R w KQkq - 0 1",
        "4k3/1P6/8/8/8/p7/8/4K2R w K - 0 1",
    ] {
        let board = Board::try_from_hashable(Fen::parse(fen).unwrap().board).unwrap();
        for movement in board.valid_moves().unwrap() {
            assert_eq!(movement.as_lan(&board).as_move(&board), movement);
            assert_eq!(movement.as_lan_chess960(&board).as_move(&board), movement);
        }
    }
}
