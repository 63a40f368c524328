use chesnaught::board::Board;
use chesnaught::color::Color;
use chesnaught::coord::{Coord, Vector};
use chesnaught::end_state::EndState;
use chesnaught::fen::Fen;
use chesnaught::hashable::HashableBoard;
use chesnaught::lan::Lan;

fn board_of(fen: &str) -> Board {
    let fen = Fen::parse(fen).unwrap();
    Board::try_from_hashable(fen.board).unwrap()
}

fn grid_of(fen: &str) -> HashableBoard {
    Fen::parse(fen).unwrap().board
}

fn lan(s: &str) -> Lan {
    Lan::parse(s).unwrap()
}

fn coord(s: &str) -> Coord {
    Coord::parse(s).unwrap()
}

#[test]
fn checkmate() {
    let board = board_of("4k3/8/r7/r3K3/r7/8/8/8 w - - 0 1");
    assert!(matches!(board.valid_moves(), Err(EndState::Win(Color::Black))));
}

#[test]
fn stalemate() {
    let board = board_of("3rkr2/8/r7/4K3/r7/8/8/8 w - - 0 1");
    assert!(matches!(board.valid_moves(), Err(EndState::Draw)));
}

#[test]
fn dead_position() {
    let board = board_of("4k3/8/8/8/8/8/8/4K3 w - - 0 1");
    assert!(matches!(board.valid_moves(), Err(EndState::Draw)));
}

#[test]
fn dead_position_with_knight() {
    let board = board_of("1n2k3/8/8/8/8/8/8/4K3 w - - 0 1");
    assert!(matches!(board.valid_moves(), Err(EndState::Draw)));
}

#[test]
fn dead_position_with_bishops() {
    let board = board_of("4kb2/4b3/8/8/8/8/8/4K3 w - - 0 1");
    assert!(matches!(board.valid_moves(), Err(EndState::Draw)));
}

#[test]
fn bishop_of_different_color_is_alive() {
    let board = board_of("2b1kb2/8/8/8/8/8/8/4K3 w - - 0 1");
    assert!(board.valid_moves().is_ok());
}

#[test]
fn castling() {
    let mut board = board_of("r3k2r/8/8/8/8/8/8/R3K2R w KQkq - 0 1");
    assert!(board.move_assert(lan("e1g1")));
    assert!(board.move_assert(lan("e8a8")));
    assert_eq!(board.as_hashable(), grid_of("2kr3r/8/8/8/8/8/8/R4RK1 w - - 0 1"));
}

#[test]
fn cant_castle_when_blocked() {
    let mut board = board_of("r3k2r/8/8/8/8/8/8/R3K1NR w KQkq - 0 1");
    assert!(board.assert_move_is_invalid(lan("e1g1")));
    assert!(board.move_assert(lan("e1c1")));
    assert_eq!(board.as_hashable(), grid_of("r3k2r/8/8/8/8/8/8/2KR2NR b kq - 0 1"));
}

#[test]
fn cant_castle_after_move() {
    let mut board = board_of("r3k2r/8/8/8/8/8/8/R3K2R w KQkq - 0 1");
    assert!(board.move_assert(lan("a1a2")));
    assert!(board.move_assert(lan("e8e7")));
    assert!(board.move_assert(lan("a2a1")));
    assert!(board.move_assert(lan("e7e8")));
    assert!(board.assert_move_is_invalid(lan("e1c1")));
    assert!(board.move_assert(lan("e1g1")));
    assert!(board.assert_move_is_invalid(lan("e8c8")));
    assert!(board.assert_move_is_invalid(lan("e8g8")));
    assert_eq!(board.as_hashable(), grid_of("r3k2r/8/8/8/8/8/8/R4RK1 b - - 0 1"));
}

#[test]
fn cant_castle_after_rook_captured() {
    let mut board = board_of("r3k2r/8/6N1/8/8/8/8/4K3 w kq - 0 1");
    assert!(board.move_assert(lan("g6h8")));
    assert!(board.assert_move_is_invalid(lan("e8g8")));
    assert!(board.assert_move_is_valid(lan("e8c8")));
    assert_eq!(board.as_hashable(), grid_of("r3k2N/8/8/8/8/8/8/4K3 b q - 0 1"));
}

#[test]
fn cant_castle_while_checked() {
    let board = board_of("4k3/4r3/8/8/8/8/8/R3K2R w KQ - 0 1");
    assert!(board.assert_move_is_invalid(lan("e1g1")));
}

#[test]
fn cant_castle_through_checked() {
    let board = board_of("4k3/5r2/8/8/8/8/8/R3K2R w KQ - 0 1");
    assert!(board.assert_move_is_invalid(lan("e1g1")));
}

#[test]
fn cant_castle_into_checked() {
    let board = board_of("4k3/6r1/8/8/8/8/8/R3K2R w KQ - 0 1");
    assert!(board.assert_move_is_invalid(lan("e1g1")));
}

#[test]
fn chess960_castling_special_case() {
    let board = board_of("4k3/8/8/8/8/8/8/rR2K2R w BH - 0 1");
    assert!(board.assert_move_is_invalid(lan("e1b1")));
}

#[test]
fn promotion() {
    let mut board = board_of("4k3/6P1/8/8/8/8/8/4K3 w - - 0 1");
    assert!(board.move_assert(lan("g7g8q")));
    assert_eq!(board.as_hashable(), grid_of("4k1Q1/8/8/8/8/8/8/4K3 b - - 0 1"));
}

#[test]
fn en_passant() {
    let mut board = board_of("4k3/8/8/8/5p2/8/4P3/4K3 w - - 0 1");
    assert!(board.move_assert(lan("e2e4")));
    assert!(board.move_assert(lan("f4e3")));
    assert_eq!(board.as_hashable(), grid_of("4k3/8/8/8/8/4p3/8/4K3 w - - 0 1"));
}

#[test]
fn lose_of_en_passant_right() {
    let mut board = board_of("4k3/8/8/8/5p2/8/4P3/4K3 w - - 0 1");
    assert!(board.move_assert(lan("e2e4")));
    assert!(board.move_assert(lan("e8d8")));
    assert!(board.move_assert(lan("e1d1")));
    assert!(board.assert_move_is_invalid(lan("f4e3")));
    assert_eq!(board.as_hashable(), grid_of("3k4/8/8/8/4Pp2/8/8/3K4 b - - 0 1"));
}

#[test]
fn en_passant_pawn_is_pinned() {
    let mut board = board_of("8/8/8/8/k4p1R/8/4P3/4K3 w - - 0 1");
    assert!(board.move_assert(lan("e2e4")));
    assert!(board.assert_move_is_invalid(lan("f4e3")));
    assert_eq!(board.as_hashable(), grid_of("8/8/8/8/k3Pp1R/8/8/4K3 b - e3 0 1"));
}

#[test]
fn en_passant_pawn_is_not_pinned() {
    let mut board = board_of("4k3/8/8/8/5p2/8/4P3/4R1K1 w - - 0 1");
    assert!(board.move_assert(lan("e2e4")));
    assert!(board.move_assert(lan("f4e3")));
    assert_eq!(board.as_hashable(), grid_of("4k3/8/8/8/8/4p3/8/4R1K1 w - - 0 1"));
}

#[test]
fn cant_move_to_check() {
    let board = board_of("4kr2/8/8/8/8/8/8/4K3 w - - 0 1");
    assert!(board.assert_move_is_invalid(lan("e1f1")));
}

#[test]
fn pin() {
    let board = board_of("4k3/4r3/8/8/8/8/4N3/4K3 w - - 0 1");
    assert!(board.assert_piece_cant_move(coord("e2")));
}

#[test]
fn can_capture_pinning_piece() {
    let mut board = board_of("4k3/4r3/8/8/8/8/4R3/4K3 w - - 0 1");
    assert!(board.move_assert(lan("e2e7")));
    assert_eq!(board.as_hashable(), grid_of("4k3/4R3/8/8/8/8/8/4K3 b - - 0 1"));
}

#[test]
fn can_move_along_line_when_pinned() {
    let mut board = board_of("4k3/4r3/8/8/8/8/4R3/4K3 w - - 0 1");
    assert!(board.move_assert(lan("e2e6")));
    assert_eq!(board.as_hashable(), grid_of("4k3/4r3/4R3/8/8/8/8/4K3 b - - 0 1"));
}

#[test]
fn check_must_be_responded() {
    let board = board_of("4k3/4r3/8/8/8/8/P7/4K3 w - - 0 1");
    assert!(board.assert_move_is_invalid(lan("a2a4")));
}

#[test]
fn can_take_checking_piece() {
    let mut board = board_of("4k3/4r3/5B2/8/8/8/8/4K3 w - - 0 1");
    assert!(board.move_assert(lan("f6e7")));
    assert_eq!(board.as_hashable(), grid_of("4k3/4B3/8/8/8/8/8/4K3 b - - 0 1"));
}

#[test]
fn can_block_check() {
    let mut board = board_of("4k3/4r3/5B2/8/8/8/8/4K3 w - - 0 1");
    assert!(board.move_assert(lan("f6e5")));
    assert_eq!(board.as_hashable(), grid_of("4k3/4r3/8/4B3/8/8/8/4K3 b - - 0 1"));
}

#[test]
fn cant_take_on_double_check() {
    let board = board_of("4k3/4r1R1/8/8/8/8/6n1/4K3 w - - 0 1");
    assert!(board.assert_move_is_invalid(lan("g7e7")));
    assert!(board.assert_move_is_invalid(lan("g7g2")));
}

#[test]
fn adjacent_exclusive_exclusive_line_is_empty() {
    assert_eq!(
        coord("e4").line_exclusive_exclusive(coord("e5"), Vector { x: 0, y: -1 }).first(),
        None
    );
}
