use vstd::prelude::*;
use crate::color::Color;

verus! {

/// How a game ended: a side won, or it is drawn.
#[derive(Debug, Clone, Copy, PartialEq, Eq, Hash, Structural)]
pub enum EndState {
    Win(Color),
    Draw,
}

impl EndState {
    /// The outcome as text, such as `white wins` or `draw`.
    pub fn to_text(self) -> (s: String)
        ensures
            s@ == (match self {
                EndState::Win(Color::White) => "white wins"@,
                EndState::Win(Color::Black) => "black wins"@,
                EndState::Draw => "draw"@,
            }),
    {
        match self {
            EndState::Win(Color::White) => String::from_str("white wins"),
            EndState::Win(Color::Black) => String::from_str("black wins"),
            EndState::Draw => String::from_str("draw"),
        }
    }
}

} // verus!
