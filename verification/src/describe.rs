//! The text of each error, as it is shown to a user.
use vstd::prelude::*;
use vstd::string::StringExecFns;
use crate::castling_right::InvalidCastlingCharacter;
use crate::color::{InvalidByte, ParseColorError};
use crate::coord::{push_char, ParseCoordError};
use crate::decimal::{decimal_text, push_decimal, ParseIntError};
use crate::fen::ParseFenError;
use crate::hashable::ExceededPieces;
use crate::lan::ParseLanError;
use crate::piece::InvalidFenPiece;
use crate::setup::InvalidBoard;
use crate::uci::input::{ParseInputError, ParsePositionError};

verus! {

/// A literal, then a character, then a literal.
pub open spec fn around(a: Seq<char>, c: char, b: Seq<char>) -> Seq<char> {
    a + seq![c] + b
}

/// A string holding `a`, then `c`, then `b`.
fn around_exec(a: &str, c: char, b: &str) -> (s: String)
    ensures
        s@ == around(a@, c, b@),
{
    let mut s = String::from_str(a);
    push_char(&mut s, c);
    s.append(b);
    proof {
        assert(s@ =~= around(a@, c, b@));
    }
    s
}

/// The text of an error in reading a side.
pub open spec fn color_error_text() -> Seq<char> {
    "provided string was not `w`, `b`, `W`, `B`, `white`, or `black`"@
}

impl ParseColorError {
    pub fn to_text(&self) -> (s: String)
        ensures
            s@ == color_error_text(),
    {
        String::from_str("provided string was not `w`, `b`, `W`, `B`, `white`, or `black`")
    }
}

impl InvalidByte {
    pub fn to_text(&self) -> (s: String)
        ensures
            s@ == "invalid byte"@,
    {
        String::from_str("invalid byte")
    }
}

/// The text of a character that is not a FEN piece letter.
pub open spec fn fen_piece_error_text(e: InvalidFenPiece) -> Seq<char> {
    around(
        "found `"@,
        e.0,
        "`, expected one of `p`, `n`, `b`, `r`, `k`, `q`, or uppercase forms of these letters"@,
    )
}

impl InvalidFenPiece {
    pub fn to_text(&self) -> (s: String)
        ensures
            s@ == fen_piece_error_text(*self),
    {
        around_exec(
            "found `",
            self.0,
            "`, expected one of `p`, `n`, `b`, `r`, `k`, `q`, or uppercase forms of these letters",
        )
    }
}

/// The text of a character that is not a castling letter.
pub open spec fn castling_error_text(e: InvalidCastlingCharacter) -> Seq<char> {
    around(
        "found "@,
        e.0,
        ", expected one of `k`, `q`, letters from `a` to `h`, or uppercase forms of these letters"@,
    )
}

impl InvalidCastlingCharacter {
    pub fn to_text(&self) -> (s: String)
        ensures
            s@ == castling_error_text(*self),
    {
        around_exec(
            "found ",
            self.0,
            ", expected one of `k`, `q`, letters from `a` to `h`, or uppercase forms of these letters",
        )
    }
}

/// The text of an error in reading a square.
pub open spec fn coord_error_text(e: ParseCoordError) -> Seq<char> {
    match e {
        ParseCoordError::InvalidX(x) => around("found `"@, x, "`, characters from `a` to `h` were expected instead"@),
        ParseCoordError::InvalidY(y) => around("found `"@, y, "`, characters from `1` to `8` were expected instead"@),
        ParseCoordError::NotEnoughCharacter(n) => "provided string have length of "@ + decimal_text(n as nat)
            + " characters, 2 were expected"@,
        ParseCoordError::Unexpected(c) => around("unexpected `"@, c, "`"@),
    }
}

impl ParseCoordError {
    pub fn to_text(&self) -> (s: String)
        ensures
            s@ == coord_error_text(*self),
    {
        match *self {
            ParseCoordError::InvalidX(x) => around_exec("found `", x, "`, characters from `a` to `h` were expected instead"),
            ParseCoordError::InvalidY(y) => around_exec("found `", y, "`, characters from `1` to `8` were expected instead"),
            ParseCoordError::NotEnoughCharacter(n) => {
                let mut s = String::from_str("provided string have length of ");
                push_decimal(&mut s, n as u64);
                s.append(" characters, 2 were expected");
                s
            },
            ParseCoordError::Unexpected(c) => around_exec("unexpected `", c, "`"),
        }
    }
}

/// The text of an error in reading a number, as the standard library words it.
pub open spec fn int_error_text(e: ParseIntError) -> Seq<char> {
    match e {
        ParseIntError::Empty => "cannot parse integer from empty string"@,
        ParseIntError::InvalidDigit => "invalid digit found in string"@,
        ParseIntError::PosOverflow => "number too large to fit in target type"@,
        ParseIntError::Zero => "number would be zero for non-zero type"@,
    }
}

impl ParseIntError {
    pub fn to_text(&self) -> (s: String)
        ensures
            s@ == int_error_text(*self),
    {
        match self {
            ParseIntError::Empty => String::from_str("cannot parse integer from empty string"),
            ParseIntError::InvalidDigit => String::from_str("invalid digit found in string"),
            ParseIntError::PosOverflow => String::from_str("number too large to fit in target type"),
            ParseIntError::Zero => String::from_str("number would be zero for non-zero type"),
        }
    }
}

/// The text of an error in reading a boolean, as the standard library words it.
pub open spec fn bool_error_text() -> Seq<char> {
    "provided string was not `true` or `false`"@
}

/// The text of an error in reading a move.
pub open spec fn lan_error_text(e: ParseLanError) -> Seq<char> {
    match e {
        ParseLanError::InvalidChar => "provided string contains invalid character"@,
        ParseLanError::ParseCoordError(c) => coord_error_text(c),
        ParseLanError::InvalidFenPiece(p) => fen_piece_error_text(p),
        ParseLanError::Unexpected(c) => around("unexpected `"@, c, "`"@),
    }
}

impl ParseLanError {
    pub fn to_text(&self) -> (s: String)
        ensures
            s@ == lan_error_text(*self),
    {
        match self {
            ParseLanError::InvalidChar => String::from_str("provided string contains invalid character"),
            ParseLanError::ParseCoordError(c) => c.to_text(),
            ParseLanError::InvalidFenPiece(p) => p.to_text(),
            ParseLanError::Unexpected(c) => around_exec("unexpected `", *c, "`"),
        }
    }
}

/// The text of an error in reading a FEN.
pub open spec fn fen_error_text(e: ParseFenError) -> Seq<char> {
    match e {
        ParseFenError::ExceededRowCount => "exceeded number of rows, 8 were expected"@,
        ParseFenError::ExceededSquareCount => "exceeded number of squares, 8 were expected"@,
        ParseFenError::InvalidRowCount(n) => "found "@ + decimal_text(n as nat) + " rows, 8 were expected instead"@,
        ParseFenError::InvalidSquareCount(n) => "found "@ + decimal_text(n as nat)
            + " squares, 8 were expected instead"@,
        ParseFenError::InvalidSpaceCharacter(c) => around("found "@, c, ", numbers from 1 to 8 were expected instead"@),
        ParseFenError::InvalidFenPiece(p) => fen_piece_error_text(p),
        ParseFenError::ParseColorError(_) => color_error_text(),
        ParseFenError::InvalidCastlingCharacter(c) => castling_error_text(c),
        ParseFenError::ParseCoordError(c) => coord_error_text(c),
        ParseFenError::ParseIntError(i) => int_error_text(i),
        ParseFenError::Unexpected(c) => around("unexpected `"@, c, "`"@),
        ParseFenError::UnexpectedEol => "unexpected end of line"@,
    }
}

impl ParseFenError {
    pub fn to_text(&self) -> (s: String)
        ensures
            s@ == fen_error_text(*self),
    {
        match self {
            ParseFenError::ExceededRowCount => String::from_str("exceeded number of rows, 8 were expected"),
            ParseFenError::ExceededSquareCount => String::from_str("exceeded number of squares, 8 were expected"),
            ParseFenError::InvalidRowCount(n) => {
                let mut s = String::from_str("found ");
                push_decimal(&mut s, *n as u64);
                s.append(" rows, 8 were expected instead");
                s
            },
            ParseFenError::InvalidSquareCount(n) => {
                let mut s = String::from_str("found ");
                push_decimal(&mut s, *n as u64);
                s.append(" squares, 8 were expected instead");
                s
            },
            ParseFenError::InvalidSpaceCharacter(c) => around_exec("found ", *c, ", numbers from 1 to 8 were expected instead"),
            ParseFenError::InvalidFenPiece(p) => p.to_text(),
            ParseFenError::ParseColorError(c) => c.to_text(),
            ParseFenError::InvalidCastlingCharacter(c) => c.to_text(),
            ParseFenError::ParseCoordError(c) => c.to_text(),
            ParseFenError::ParseIntError(i) => i.to_text(),
            ParseFenError::Unexpected(c) => around_exec("unexpected `", *c, "`"),
            ParseFenError::UnexpectedEol => String::from_str("unexpected end of line"),
        }
    }
}

/// The text of an error in reading a `position` command.
pub open spec fn position_error_text(e: ParsePositionError) -> Seq<char> {
    match e {
        ParsePositionError::UnknownCommand(c) => "found `"@ + c@ + "`, `startpos` or `fen` were expected instead"@,
        ParsePositionError::Unexpected(c) => "unexpected "@.push(c),
        ParsePositionError::ParseFenError(f) => fen_error_text(f),
    }
}

impl ParsePositionError {
    pub fn to_text(&self) -> (s: String)
        ensures
            s@ == position_error_text(*self),
    {
        match self {
            ParsePositionError::UnknownCommand(c) => {
                let mut s = String::from_str("found `");
                s.append(c.as_str());
                s.append("`, `startpos` or `fen` were expected instead");
                s
            },
            ParsePositionError::Unexpected(c) => {
                let mut s = String::from_str("unexpected ");
                push_char(&mut s, *c);
                s
            },
            ParsePositionError::ParseFenError(f) => f.to_text(),
        }
    }
}

/// The text of an error in reading a command.
pub open spec fn input_error_text(e: ParseInputError) -> Seq<char> {
    match e {
        ParseInputError::ParsePositionError(p) => position_error_text(p),
        ParseInputError::UnknownCommand(c) => "unknown command `"@ + c@ + "`"@,
        ParseInputError::NotOnOrOff => "provided string was not `on` or `off`"@,
        ParseInputError::NoName => "token `name` was not found"@,
    }
}

impl ParseInputError {
    pub fn to_text(&self) -> (s: String)
        ensures
            s@ == input_error_text(*self),
    {
        match self {
            ParseInputError::ParsePositionError(p) => p.to_text(),
            ParseInputError::UnknownCommand(c) => {
                let mut s = String::from_str("unknown command `");
                s.append(c.as_str());
                s.append("`");
                s
            },
            ParseInputError::NotOnOrOff => String::from_str("provided string was not `on` or `off`"),
            ParseInputError::NoName => String::from_str("token `name` was not found"),
        }
    }
}

/// The text of a grid that holds more pieces than the slots.
pub open spec fn exceeded_text(e: ExceededPieces) -> Seq<char> {
    match e {
        ExceededPieces::PromotedPiece => "exceeded allowable number of promoted pieces"@,
        ExceededPieces::Pawn => "found more than 8 pawns"@,
        ExceededPieces::King => "found more than 1 kings"@,
    }
}

impl ExceededPieces {
    pub fn to_text(&self) -> (s: String)
        ensures
            s@ == exceeded_text(*self),
    {
        match self {
            ExceededPieces::PromotedPiece => String::from_str("exceeded allowable number of promoted pieces"),
            ExceededPieces::Pawn => String::from_str("found more than 8 pawns"),
            ExceededPieces::King => String::from_str("found more than 1 kings"),
        }
    }
}

/// The text of a grid that is not a sound position.
pub open spec fn invalid_board_text(e: InvalidBoard) -> Seq<char> {
    match e {
        InvalidBoard::ExceededPieces(x) => exceeded_text(x),
        InvalidBoard::NoKing => "no kings found"@,
        InvalidBoard::NonPlayerInCheck => "non-player in check"@,
        InvalidBoard::MoreThanTwoCheckers => "found more than 2 pieces delivering check"@,
        InvalidBoard::RookNotFound => "rook not found for castling right"@,
        InvalidBoard::InvalidEnPassantRank => "en passant target may only be on ranks 3 or 6"@,
        InvalidBoard::EnPassantPawnNotFound => "pawn in front of en passant target is not found"@,
        InvalidBoard::PawnOnHomeRank => "pawns cannot be on ranks 1 or 8"@,
    }
}

impl InvalidBoard {
    pub fn to_text(&self) -> (s: String)
        ensures
            s@ == invalid_board_text(*self),
    {
        match self {
            InvalidBoard::ExceededPieces(x) => x.to_text(),
            InvalidBoard::NoKing => String::from_str("no kings found"),
            InvalidBoard::NonPlayerInCheck => String::from_str("non-player in check"),
            InvalidBoard::MoreThanTwoCheckers => String::from_str("found more than 2 pieces delivering check"),
            InvalidBoard::RookNotFound => String::from_str("rook not found for castling right"),
            InvalidBoard::InvalidEnPassantRank => String::from_str("en passant target may only be on ranks 3 or 6"),
            InvalidBoard::EnPassantPawnNotFound => String::from_str("pawn in front of en passant target is not found"),
            InvalidBoard::PawnOnHomeRank => String::from_str("pawns cannot be on ranks 1 or 8"),
        }
    }
}

} // verus!
