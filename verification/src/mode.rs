//! The mode the program runs in, chosen by its first line.
use vstd::prelude::*;
use crate::misc::str_eq;

verus! {

/// The modes: the UCI protocol, the interactive play mode, and the check of
/// move generation against random games.
#[derive(Debug, Clone, Copy, PartialEq, Eq, Hash, Structural)]
pub enum Mode {
    Uci,
    Repl,
    Fuzz,
}

/// A first line that names no mode.
#[derive(Debug, Clone, Copy, PartialEq, Eq, Hash, Structural)]
pub struct ParseModeError;

/// The name of a mode.
pub open spec fn mode_text(m: Mode) -> Seq<char> {
    match m {
        Mode::Uci => "uci"@,
        Mode::Repl => "repl"@,
        Mode::Fuzz => "fuzz"@,
    }
}

impl Mode {
    /// Reads the name of a mode, exactly `uci`, `repl` or `fuzz`.
    pub fn parse(s: &str) -> (r: Result<Mode, ParseModeError>)
        ensures
            r == (if s@ == "uci"@ {
                Ok::<Mode, ParseModeError>(Mode::Uci)
            } else if s@ == "repl"@ {
                Ok::<Mode, ParseModeError>(Mode::Repl)
            } else if s@ == "fuzz"@ {
                Ok::<Mode, ParseModeError>(Mode::Fuzz)
            } else {
                Err::<Mode, ParseModeError>(ParseModeError)
            }),
    {
        if str_eq(s, "uci") {
            Ok(Mode::Uci)
        } else if str_eq(s, "repl") {
            Ok(Mode::Repl)
        } else if str_eq(s, "fuzz") {
            Ok(Mode::Fuzz)
        } else {
            Err(ParseModeError)
        }
    }

    /// The name of the mode.
    pub fn to_text(self) -> (s: String)
        ensures
            s@ == mode_text(self),
    {
        match self {
            Mode::Uci => String::from_str("uci"),
            Mode::Repl => String::from_str("repl"),
            Mode::Fuzz => String::from_str("fuzz"),
        }
    }
}

impl ParseModeError {
    pub fn to_text(&self) -> (s: String)
        ensures
            s@ == "provided string was not `uci`, `repl`, or `fuzz`"@,
    {
        String::from_str("provided string was not `uci`, `repl`, or `fuzz`")
    }
}

} // verus!
