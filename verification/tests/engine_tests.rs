use chesnaught::board::Board;
use chesnaught::fen::Fen;
use chesnaught::game_tree::{Data, GameTree};
use chesnaught::hashable::HashableBoard;
use chesnaught::table::{Table, MAX_CAPACITY_LIMIT};
use chesnaught::color::Color;
use chesnaught::engine::EngineState;
use chesnaught::heuristics::{Estimated, PawnAdvancement, Score};
use chesnaught::lan::Lan;

fn lan(s: &str) -> Lan {
    Lan::parse(s).unwrap()
}

fn even() -> Score {
    Score::Estimated(Estimated {
        material: 0,
        pawn_advancement: PawnAdvancement::new([0; 8]),
        king_safety: 0,
        square_control: 0,
    })
}

#[test]
fn engine_state_starts_at_the_first_ply() {
    let state = EngineState::new();
    assert_eq!(state.last_depth, 1);
    assert_eq!(state.ponder, None);
}

#[test]
fn engine_state_moves_lower_the_depth_to_one_at_least() {
    let mut state = EngineState::new();
    assert!(!state.iteration_done(5, 100, false, None, None, None, None));
    assert_eq!(state.last_depth, 5);
    state.move_piece();
    assert_eq!(state.last_depth, 4);
    state.move_piece();
    state.move_piece();
    state.move_piece();
    assert_eq!(state.last_depth, 1);
    state.move_piece();
    assert_eq!(state.last_depth, 1);
    assert!(!state.iteration_done(7, 100, false, None, None, None, None));
    state.set_board();
    assert_eq!(state.last_depth, 1);
}

#[test]
fn engine_state_first_depth() {
    let mut state = EngineState::new();
    assert!(!state.iteration_done(6, 10, false, None, None, None, None));
    assert_eq!(state.first_depth(false, None), 1);
    assert_eq!(state.first_depth(false, Some(3)), 1);
    assert_eq!(state.first_depth(true, None), 6);
    assert_eq!(state.first_depth(true, Some(3)), 3);
    assert_eq!(state.first_depth(true, Some(9)), 6);
}

#[test]
fn engine_state_deepening_ends_on_each_limit() {
    let mut state = EngineState::new();
    assert!(state.iteration_done(2, 10, true, None, None, None, None));
    assert!(!state.iteration_done(2, 10, false, None, Some(3), None, None));
    assert!(state.iteration_done(3, 10, false, None, Some(3), None, None));
    assert!(!state.iteration_done(3, 10, false, None, None, Some(11), None));
    assert!(state.iteration_done(3, 11, false, None, None, Some(11), None));
    let win = Some(Score::Win(Color::White));
    assert!(state.iteration_done(4, 10, false, win, None, None, Some(4)));
    assert!(!state.iteration_done(5, 10, false, win, None, None, Some(4)));
    assert!(!state.iteration_done(4, 10, false, win, None, None, None));
    assert!(!state.iteration_done(4, 10, false, Some(even()), None, None, Some(4)));
    assert_eq!(state.last_depth, 4);
}

#[test]
fn engine_state_finish_reports_the_best_line() {
    let mut state = EngineState::new();
    assert_eq!(state.finish(&vec![]), (None, None));
    assert_eq!(state.ponder, None);
    let line = vec![lan("e2e4"), lan("e7e5"), lan("g1f3")];
    assert_eq!(state.finish(&line), (Some(lan("e2e4")), Some(lan("e7e5"))));
    assert_eq!(state.ponder, Some(lan("e7e5")));
    assert_eq!(state.finish(&vec![lan("d2d4")]), (Some(lan("d2d4")), None));
    assert_eq!(state.ponder, Some(lan("e7e5")));
}


fn board(fen: &str) -> Board {
    Board::try_from_hashable(Fen::parse(fen).unwrap().board).unwrap()
}

fn even_estimate(_board: &Board) -> Estimated {
    Estimated {
        material: 0,
        pawn_advancement: PawnAdvancement::new([0; 8]),
        king_safety: 0,
        square_control: 0,
    }
}

/// Material for white: a pawn one, a knight or bishop three, a rook five.
fn material_estimate(board: &Board) -> Estimated {
    let grid = board.as_hashable();
    let mut material: i8 = 0;
    for row in grid.board.iter() {
        for cell in row.iter() {
            if let Some(piece) = cell {
                let value = match piece.piece {
                    chesnaught::piece::PieceKind::Pawn => 1,
                    chesnaught::piece::PieceKind::Knight | chesnaught::piece::PieceKind::Bishop => 3,
                    chesnaught::piece::PieceKind::Rook => 5,
                    chesnaught::piece::PieceKind::Queen => 9,
                    chesnaught::piece::PieceKind::King => 0,
                };
                material += if piece.color == Color::White { value } else { -value };
            }
        }
    }
    Estimated { material, ..even_estimate(board) }
}

#[test]
fn game_tree_starts_unsearched() {
    let tree = GameTree::new(Board::starting_position());
    assert_eq!(tree.best_move(), None);
    assert_eq!(tree.score(), None);
    assert!(tree.best_line().is_empty());
    assert!(tree.accepts_move(lan("e2e4")));
    assert!(!tree.accepts_move(lan("e2e5")));
}

#[test]
fn game_tree_search_finds_mate_in_one() {
    let mut tree = GameTree::new(board("6k1/5ppp/8/8/8/8/8/R5K1 w - - 0 1"));
    let mut table = Table::new(1000);
    let nodes = tree.calculate(1, &mut table, &even_estimate);
    assert!(nodes >= 1);
    assert_eq!(tree.best_move(), Some(lan("a1a8")));
    assert_eq!(tree.score(), Some(Score::Win(Color::White)));
    assert_eq!(tree.best_line(), vec![lan("a1a8")]);
}

#[test]
fn game_tree_search_takes_the_free_queen() {
    let mut tree = GameTree::new(board("4k3/8/8/3q4/8/8/3R4/4K3 w - - 0 1"));
    let mut table = Table::new(1000);
    tree.calculate(1, &mut table, &material_estimate);
    assert_eq!(tree.best_move(), Some(lan("d2d5")));
    let mut tree = GameTree::new(board("4k3/8/8/3q4/8/8/3R4/4K3 w - - 0 1"));
    tree.calculate(2, &mut table, &material_estimate);
    assert_eq!(tree.best_move(), Some(lan("d2d5")));
    assert_eq!(tree.best_line().len(), 2);
    match &tree.0.data {
        Data::Children { children, .. } => {
            assert_eq!(children[0].2.score, tree.score());
            assert_eq!(tree.score(), Some(Score::Estimated(Estimated { material: 5, ..even_estimate(&Board::starting_position()) })));
        }
        _ => panic!("the root is expanded"),
    }
}

#[test]
fn game_tree_moves_follow_the_searched_child() {
    let mut tree = GameTree::new(Board::starting_position());
    let mut table = Table::new(1000);
    tree.calculate(2, &mut table, &even_estimate);
    let line = tree.best_line();
    assert_eq!(line.len(), 2);
    assert!(tree.accepts_move(lan("g1f3")));
    tree.move_piece(line[0]);
    assert_eq!(tree.best_move(), Some(line[1]));
    assert_eq!(tree.best_line(), line[1..].to_vec());
    tree.move_piece(lan("e7e5"));
    assert!(tree.accepts_move(lan("e2e4")) || tree.accepts_move(lan("d2d4")));
}

#[test]
fn game_tree_of_a_finished_game() {
    let mut tree = GameTree::new(board("7k/5Q2/6K1/8/8/8/8/8 b - - 0 1"));
    assert!(!tree.accepts_move(lan("h8g8")));
    let mut table = Table::new(1000);
    assert_eq!(tree.calculate(3, &mut table, &even_estimate), 1);
    assert_eq!(tree.best_move(), None);
    assert_eq!(tree.score(), Some(even()));
    let mut mated = GameTree::new(board("R5k1/5ppp/8/8/8/8/8/6K1 b - - 0 1"));
    mated.calculate(1, &mut table, &even_estimate);
    assert_eq!(mated.score(), Some(Score::Win(Color::White)));
}

#[test]
fn table_keeps_scores_and_repetitions() {
    let position: HashableBoard = Board::starting_position().as_hashable();
    let mut table = Table::new(100);
    assert_eq!(table.max_capacity(), 100);
    assert_eq!(table.get_transposition(&position), None);
    assert!(!table.contains_repetition(&position));
    table.insert_repetition(position);
    assert!(table.contains_repetition(&position));
    assert_eq!(table.get_transposition(&position), None);
    table.insert_transposition(position, Score::Win(Color::Black));
    assert_eq!(table.get_transposition(&position), Some(Score::Win(Color::Black)));
    assert!(table.contains_repetition(&position));
    table.remove_repetition(&position);
    assert!(!table.contains_repetition(&position));
    assert_eq!(table.get_transposition(&position), Some(Score::Win(Color::Black)));
    table.clear();
    assert_eq!(table.get_transposition(&position), None);
    table.insert_transposition(position, even());
    table.clear_allocation();
    assert_eq!(table.get_transposition(&position), None);
}

#[test]
fn table_limit_is_capped() {
    assert_eq!(Table::new(usize::MAX).max_capacity(), MAX_CAPACITY_LIMIT);
    assert_eq!(MAX_CAPACITY_LIMIT, i32::MAX as usize);
    let mut table = Table::new(5);
    table.set_max_capacity(7);
    assert_eq!(table.max_capacity(), 7);
    table.set_max_capacity(usize::MAX);
    assert_eq!(table.max_capacity(), MAX_CAPACITY_LIMIT);
}

#[test]
fn game_tree_keeps_a_child_for_every_legal_move() {
    let position = board("r3k2r/8/8/8/8/8/8/R3K2R w KQkq - 0 1");
    let mut tree = GameTree::new(position);
    let mut table = Table::new(1000);
    tree.calculate(1, &mut table, &even_estimate);
    let moves = position.valid_moves().unwrap();
    assert!(moves.len() > 20);
    for movement in moves {
        let (first, second) = movement.as_lan_pair(&position);
        assert!(tree.accepts_move(first));
        if let Some(second) = second {
            assert!(tree.accepts_move(second));
        }
    }
    assert!(!tree.accepts_move(lan("e1e3")));
}

#[test]
fn a_fresh_search_reaches_its_depth() {
    let mut tree = GameTree::new(Board::starting_position());
    let mut table = Table::new(100_000);
    tree.calculate(2, &mut table, &even_estimate);
    match &tree.0.data {
        Data::Children { children, .. } => match &children[0].2.data {
            Data::Children { children: grandchildren, .. } => {
                assert!(matches!(grandchildren[0].2.data, Data::Board(_)));
                assert!(grandchildren[0].2.score.is_some());
            }
            _ => panic!("the best child is searched one ply deeper"),
        },
        _ => panic!("the root is expanded"),
    }
}
