use vstd::prelude::*;

verus! {

/// Error returned when a byte does not encode a value of the requested type.
#[derive(Debug, Clone, Copy, PartialEq, Eq, Hash, Structural)]
pub struct InvalidByte;

/// Error returned when a string does not name a color.
#[derive(Debug, Clone, Copy, PartialEq, Eq, Hash, Structural)]
pub struct ParseColorError;

/// The two sides of a chess game.
#[derive(Debug, Clone, Copy, PartialEq, Eq, Hash, Structural)]
pub enum Color {
    White,
    Black,
}

/// What reading a side gives: `w`, `W` or `white` is white, `b`, `B` or
/// `black` is black.
pub open spec fn parse_color(s: Seq<char>) -> Result<Color, ParseColorError> {
    if s == seq!['w'] || s == seq!['W'] || s == seq!['w', 'h', 'i', 't', 'e'] {
        Ok(Color::White)
    } else if s == seq!['b'] || s == seq!['B'] || s == seq!['b', 'l', 'a', 'c', 'k'] {
        Ok(Color::Black)
    } else {
        Err(ParseColorError)
    }
}

impl Color {
    /// The other side.
    pub open spec fn other(self) -> Color {
        match self {
            Color::White => Color::Black,
            Color::Black => Color::White,
        }
    }

    /// Byte encoding: white is 1, black is 0.
    pub open spec fn byte_of(self) -> u8 {
        match self {
            Color::White => 1,
            Color::Black => 0,
        }
    }

    /// Returns the other side.
    pub fn opposite(self) -> (r: Color)
        ensures
            r == self.other(),
    {
        match self {
            Color::White => Color::Black,
            Color::Black => Color::White,
        }
    }

    /// The letter that FEN uses for this side: `w` or `b`.
    pub fn lowercase(self) -> (c: char)
        ensures
            c == (match self {
                Color::White => 'w',
                Color::Black => 'b',
            }),
    {
        match self {
            Color::White => 'w',
            Color::Black => 'b',
        }
    }

    /// The name of this side: `white` or `black`.
    pub fn name(self) -> (s: &'static str)
        ensures
            s@ == (match self {
                Color::White => "white"@,
                Color::Black => "black"@,
            }),
    {
        match self {
            Color::White => "white",
            Color::Black => "black",
        }
    }

    /// Parses `w`, `W` or `white` as white and `b`, `B` or `black` as black.
    pub fn parse(s: &str) -> (r: Result<Color, ParseColorError>)
        ensures
            r == parse_color(s@),
    {
        proof {
            reveal_strlit("w");
            reveal_strlit("W");
            reveal_strlit("white");
            reveal_strlit("b");
            reveal_strlit("B");
            reveal_strlit("black");
            assert("w"@ =~= seq!['w']);
            assert("W"@ =~= seq!['W']);
            assert("b"@ =~= seq!['b']);
            assert("B"@ =~= seq!['B']);
            assert("white"@ =~= seq!['w', 'h', 'i', 't', 'e']);
            assert("black"@ =~= seq!['b', 'l', 'a', 'c', 'k']);
        }
        let n = s.unicode_len();
        if n == 1 {
            let c = s.get_char(0);
            if c == 'w' || c == 'W' {
                proof {
                    assert(s@ =~= seq![c]);
                    assert(s@ =~= "w"@ || s@ =~= "W"@);
                }
                return Ok(Color::White);
            } else if c == 'b' || c == 'B' {
                proof {
                    assert(s@ =~= seq![c]);
                    assert(s@ =~= "b"@ || s@ =~= "B"@);
                }
                return Ok(Color::Black);
            } else {
                proof {
                    assert(s@[0] != "w"@[0] && s@[0] != "W"@[0] && s@[0] != "b"@[0] && s@[0] != "B"@[0]);
                }
                return Err(ParseColorError);
            }
        } else if n == 5 {
            if s.get_char(0) == 'w' && s.get_char(1) == 'h' && s.get_char(2) == 'i' && s.get_char(3)
                == 't' && s.get_char(4) == 'e' {
                proof {
                    assert(s@ =~= "white"@);
                }
                return Ok(Color::White);
            } else if s.get_char(0) == 'b' && s.get_char(1) == 'l' && s.get_char(2) == 'a'
                && s.get_char(3) == 'c' && s.get_char(4) == 'k' {
                proof {
                    assert(s@ =~= "black"@);
                }
                return Ok(Color::Black);
            } else {
                proof {
                    if s@ == "white"@ {
                        assert(s@[0] == 'w' && s@[1] == 'h' && s@[2] == 'i' && s@[3] == 't' && s@[4] == 'e');
                    }
                    if s@ == "black"@ {
                        assert(s@[0] == 'b' && s@[1] == 'l' && s@[2] == 'a' && s@[3] == 'c' && s@[4] == 'k');
                    }
                }
                return Err(ParseColorError);
            }
        } else {
            return Err(ParseColorError);
        }
    }

    /// Decodes the byte encoding: 1 is white, 0 is black.
    pub fn try_from_byte(value: u8) -> (r: Result<Color, InvalidByte>)
        ensures
            r == (if value == 1 {
                Ok::<Color, InvalidByte>(Color::White)
            } else if value == 0 {
                Ok(Color::Black)
            } else {
                Err(InvalidByte)
            }),
    {
        match value {
            0 => Ok(Color::Black),
            1 => Ok(Color::White),
            _ => Err(InvalidByte),
        }
    }

    /// The byte encoding: 1 for white, 0 for black.
    pub fn to_byte(self) -> (b: u8)
        ensures
            b == self.byte_of(),
    {
        match self {
            Color::White => 1,
            Color::Black => 0,
        }
    }
}

/// Taking the other side twice gives back the side one started from.
pub proof fn lemma_other_involutive(c: Color)
    ensures
        c.other().other() == c,
        c.other() != c,
{
}

/// The byte encoding decodes back to the same side.
pub proof fn lemma_byte_round_trip(c: Color)
    ensures
        c.byte_of() <= 1,
        (c.byte_of() == 1) == (c == Color::White),
{
}

} // verus!
