//! The Universal Chess Interface: commands from the GUI and replies to it.
pub mod input;
pub mod output;
pub mod session;
