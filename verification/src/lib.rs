//! A chess and Chess960 engine library: the board and its legal moves, FEN
//! and long algebraic notation, Chess960 starting positions, position
//! scores, the search tree with its alpha-beta search and table of
//! positions, the engine's iterative deepening, the UCI session, and the
//! interactive play mode.
pub mod color;
pub use color::{Color, InvalidByte, ParseColorError};
pub mod piece;
pub use piece::{ColoredPieceKind, InvalidFenPiece, Piece, PieceKind};
pub mod coord;
pub use coord::{
    home_rank, pawn_direction, pawn_home_rank, pawn_promotion_rank, Coord, ParseCoordError, Vector,
};
pub mod castling_right;
pub use castling_right::{CastlingRight, InvalidCastlingCharacter, StandardCastlingRight};
pub mod rules;
pub mod end_state;
pub use end_state::EndState;
pub mod board;
pub mod hashable;
pub mod setup;
pub mod lan;
pub mod decimal;
pub mod misc;
pub mod fen;
pub mod heuristics;
pub mod uci;
pub mod describe;
pub mod simple_board;
pub mod board_display;
pub mod game_tree;
pub mod engine;
pub mod table;
pub mod repl;
pub mod mode;
