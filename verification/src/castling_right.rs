use vstd::prelude::*;
use crate::color::Color;
use crate::coord::{home_rank, home_rank_of, push_char, ROOK_ORIGIN_KINGSIDE, ROOK_ORIGIN_QUEENSIDE};
use crate::piece::{Piece, PieceKind};

verus! {

/// Error returned when a character cannot appear in a castling field.
#[derive(Debug, Clone, Copy, PartialEq, Eq, Hash, Structural)]
pub struct InvalidCastlingCharacter(pub char);

/// For each side, the files of the rooks that may still castle, one bit per file.
#[derive(Debug, Clone, Copy, PartialEq, Eq, Hash, Structural)]
pub struct CastlingRight {
    pub white: u8,
    pub black: u8,
}

/// A castling right shown in the standard `KQkq` notation where it can be.
#[derive(Debug, Clone, Copy, PartialEq, Eq, Hash, Structural)]
pub struct StandardCastlingRight(pub CastlingRight);

/// Whether bit `x` of `b` is set.
pub open spec fn bit(b: u8, x: int) -> bool {
    (b >> (x as u8)) & 1u8 == 1u8
}

proof fn lemma_bit_or(b: u8, x: u8, y: u8)
    by (bit_vector)
    requires
        x < 8,
        y < 8,
    ensures
        ((b | (1u8 << x)) >> y) & 1u8 == (if x == y { 1u8 } else { (b >> y) & 1u8 }),
{
}

proof fn lemma_bit_and_not(b: u8, x: u8, y: u8)
    by (bit_vector)
    requires
        x < 8,
        y < 8,
    ensures
        ((b & !(1u8 << x)) >> y) & 1u8 == (if x == y { 0u8 } else { (b >> y) & 1u8 }),
{
}

proof fn lemma_bit_zero(y: u8)
    by (bit_vector)
    requires
        y < 8,
    ensures
        (0u8 >> y) & 1u8 == 0u8,
{
}

proof fn lemma_bit_values(b: u8, y: u8)
    by (bit_vector)
    requires
        y < 8,
    ensures
        (b >> y) & 1u8 == 0u8 || (b >> y) & 1u8 == 1u8,
{
}

proof fn lemma_bits_determine(a: u8, b: u8)
    by (bit_vector)
    requires
        (a >> 0u8) & 1u8 == (b >> 0u8) & 1u8,
        (a >> 1u8) & 1u8 == (b >> 1u8) & 1u8,
        (a >> 2u8) & 1u8 == (b >> 2u8) & 1u8,
        (a >> 3u8) & 1u8 == (b >> 3u8) & 1u8,
        (a >> 4u8) & 1u8 == (b >> 4u8) & 1u8,
        (a >> 5u8) & 1u8 == (b >> 5u8) & 1u8,
        (a >> 6u8) & 1u8 == (b >> 6u8) & 1u8,
        (a >> 7u8) & 1u8 == (b >> 7u8) & 1u8,
    ensures
        a == b,
{
}

/// Two bytes with the same eight bits are equal.
pub proof fn lemma_byte_ext(a: u8, b: u8)
    requires
        forall|x: int| 0 <= x < 8 ==> bit(a, x) == bit(b, x),
    ensures
        a == b,
{
    assert forall|x: u8| x < 8 implies (a >> x) & 1u8 == (b >> x) & 1u8 by {
        lemma_bit_values(a, x);
        lemma_bit_values(b, x);
        assert(bit(a, x as int) == bit(b, x as int));
    }
    assert((a >> 0u8) & 1u8 == (b >> 0u8) & 1u8);
    assert((a >> 1u8) & 1u8 == (b >> 1u8) & 1u8);
    assert((a >> 2u8) & 1u8 == (b >> 2u8) & 1u8);
    assert((a >> 3u8) & 1u8 == (b >> 3u8) & 1u8);
    assert((a >> 4u8) & 1u8 == (b >> 4u8) & 1u8);
    assert((a >> 5u8) & 1u8 == (b >> 5u8) & 1u8);
    assert((a >> 6u8) & 1u8 == (b >> 6u8) & 1u8);
    assert((a >> 7u8) & 1u8 == (b >> 7u8) & 1u8);
    lemma_bits_determine(a, b);
}

/// The files, from `x` up to the h-file, whose bit is set.
pub open spec fn files_from(b: u8, x: int) -> Seq<u8>
    decreases 8 - x,
{
    if x < 0 || x >= 8 {
        Seq::empty()
    } else if bit(b, x) {
        seq![x as u8] + files_from(b, x + 1)
    } else {
        files_from(b, x + 1)
    }
}

/// The letters naming the files of a byte, from `x` up, starting at `base`.
pub open spec fn file_letters(b: u8, x: int, base: int) -> Seq<char>
    decreases 8 - x,
{
    if x < 0 || x >= 8 {
        Seq::empty()
    } else if bit(b, x) {
        seq![(base + x) as char] + file_letters(b, x + 1, base)
    } else {
        file_letters(b, x + 1, base)
    }
}

/// The letter that standard notation uses for file `x`, going down from file `x`.
pub open spec fn standard_letter(color: Color, x: int) -> char {
    match color {
        Color::White => if x == 0 {
            'Q'
        } else if x == 7 {
            'K'
        } else {
            (65 + x) as char
        },
        Color::Black => if x == 0 {
            'q'
        } else if x == 7 {
            'k'
        } else {
            (97 + x) as char
        },
    }
}

/// The standard letters of the set files, from file `x` down to the a-file.
pub open spec fn standard_letters(b: u8, color: Color, x: int) -> Seq<char>
    decreases x + 1,
{
    if x < 0 || x >= 8 {
        Seq::empty()
    } else if bit(b, x) {
        seq![standard_letter(color, x)] + standard_letters(b, color, x - 1)
    } else {
        standard_letters(b, color, x - 1)
    }
}

/// The castling right a character stands for, if it stands for one: `K`/`Q`
/// are the h/a-files, `A`-`H` white files and `a`-`h` black files.
pub open spec fn castling_char(c: char) -> Option<(Color, int)> {
    if c == 'Q' {
        Some((Color::White, 0))
    } else if c == 'K' {
        Some((Color::White, 7))
    } else if c == 'q' {
        Some((Color::Black, 0))
    } else if c == 'k' {
        Some((Color::Black, 7))
    } else if 'A' <= c <= 'H' {
        Some((Color::White, c as int - 65))
    } else if 'a' <= c <= 'h' {
        Some((Color::Black, c as int - 97))
    } else {
        None
    }
}

/// Whether a character may appear in a castling field.
pub open spec fn castling_char_valid(c: char) -> bool {
    castling_char(c) is Some || c == '-'
}

impl CastlingRight {
    /// The bits of one side.
    pub open spec fn byte_of(self, color: Color) -> u8 {
        match color {
            Color::White => self.white,
            Color::Black => self.black,
        }
    }

    /// Whether `color` may still castle with the rook on file `x`.
    pub open spec fn has(self, color: Color, x: int) -> bool {
        bit(self.byte_of(color), x)
    }

    /// The right with file `x` of `color` added.
    pub open spec fn added(self, color: Color, x: int) -> CastlingRight {
        match color {
            Color::White => CastlingRight { white: self.white | (1u8 << (x as u8)), black: self.black },
            Color::Black => CastlingRight { white: self.white, black: self.black | (1u8 << (x as u8)) },
        }
    }

    /// The right with file `x` of `color` removed.
    pub open spec fn removed(self, color: Color, x: int) -> CastlingRight {
        match color {
            Color::White => CastlingRight { white: self.white & !(1u8 << (x as u8)), black: self.black },
            Color::Black => CastlingRight { white: self.white, black: self.black & !(1u8 << (x as u8)) },
        }
    }

    /// The right with all files of `color` removed.
    pub open spec fn cleared(self, color: Color) -> CastlingRight {
        match color {
            Color::White => CastlingRight { white: 0, black: self.black },
            Color::Black => CastlingRight { white: self.white, black: 0 },
        }
    }

    /// The right after a piece is captured: a rook taken on its own first rank
    /// takes away the right of its file.
    pub open spec fn after_capture(self, captured: Piece) -> CastlingRight {
        if captured.piece.piece == PieceKind::Rook && captured.position.y == home_rank_of(
            captured.piece.color,
        ) {
            self.removed(captured.piece.color, captured.position.x as int)
        } else {
            self
        }
    }

    /// Adding file `x` sets exactly that bit.
    pub proof fn lemma_added(self, color: Color, x: int)
        requires
            0 <= x < 8,
        ensures
            forall|c: Color, y: int|
                0 <= y < 8 ==> #[trigger] self.added(color, x).has(c, y) == ((c == color && y == x)
                    || self.has(c, y)),
    {
        assert forall|c: Color, y: int| 0 <= y < 8 implies #[trigger] self.added(color, x).has(c, y) == ((c == color && y == x)
            || self.has(c, y)) by {
            lemma_bit_or(self.byte_of(color), x as u8, y as u8);
            lemma_bit_values(self.byte_of(c), y as u8);
        }
    }

    /// Removing file `x` clears exactly that bit.
    pub proof fn lemma_removed(self, color: Color, x: int)
        requires
            0 <= x < 8,
        ensures
            forall|c: Color, y: int|
                0 <= y < 8 ==> #[trigger] self.removed(color, x).has(c, y) == (!(c == color && y
                    == x) && self.has(c, y)),
    {
        assert forall|c: Color, y: int| 0 <= y < 8 implies #[trigger] self.removed(color, x).has(c, y) == (!(c == color && y
            == x) && self.has(c, y)) by {
            lemma_bit_and_not(self.byte_of(color), x as u8, y as u8);
        }
    }

    /// Clearing a side removes all its bits.
    pub proof fn lemma_cleared(self, color: Color)
        ensures
            forall|c: Color, y: int|
                0 <= y < 8 ==> #[trigger] self.cleared(color).has(c, y) == (c != color && self.has(c, y)),
    {
        assert forall|c: Color, y: int| 0 <= y < 8 implies #[trigger] self.cleared(color).has(c, y) == (c != color && self.has(c, y)) by {
            lemma_bit_zero(y as u8);
        }
    }

    /// No side may castle.
    pub fn none() -> (r: CastlingRight)
        ensures
            r == (CastlingRight { white: 0, black: 0 }),
            forall|c: Color, x: int| 0 <= x < 8 ==> !#[trigger] r.has(c, x),
    {
        proof {
            assert forall|c: Color, x: int| 0 <= x < 8 implies !#[trigger] (CastlingRight { white: 0, black: 0 }).has(c, x) by {
                lemma_bit_zero(x as u8);
            }
        }
        CastlingRight { white: 0, black: 0 }
    }

    /// Both sides may castle with every rook of a back rank configuration.
    pub fn from_configuration(configuration: [PieceKind; 8]) -> (r: CastlingRight)
        ensures
            forall|c: Color, x: int|
                0 <= x < 8 ==> #[trigger] r.has(c, x) == (configuration@[x] == PieceKind::Rook),
    {
        let mut castling_right = CastlingRight::none();
        let mut i: usize = 0;
        while i < 8
            invariant
                0 <= i <= 8,
                forall|c: Color, x: int|
                    0 <= x < 8 ==> #[trigger] castling_right.has(c, x) == (x < i
                        && configuration@[x] == PieceKind::Rook),
            decreases 8 - i,
        {
            if configuration[i] == PieceKind::Rook {
                proof {
                    castling_right.lemma_added(Color::White, i as int);
                    castling_right.added(Color::White, i as int).lemma_added(Color::Black, i as int);
                }
                castling_right.add(Color::White, i as u8);
                castling_right.add(Color::Black, i as u8);
            }
            i = i + 1;
        }
        castling_right
    }

    /// The files on which `color` may castle, in increasing order.
    pub fn all(self, color: Color) -> (r: Vec<u8>)
        ensures
            r@ == files_from(self.byte_of(color), 0),
    {
        let mut r: Vec<u8> = Vec::new();
        let mut x: u8 = 0;
        while x < 8
            invariant
                0 <= x <= 8,
                r@ + files_from(self.byte_of(color), x as int) == files_from(self.byte_of(color), 0),
            decreases 8 - x,
        {
            if self.get(color, x) {
                proof {
                    assert(r@.push(x) + files_from(self.byte_of(color), x + 1) =~= r@ + files_from(
                        self.byte_of(color),
                        x as int,
                    ));
                }
                r.push(x);
            }
            x = x + 1;
        }
        proof {
            assert(r@ =~= r@ + files_from(self.byte_of(color), 8));
        }
        r
    }

    fn byte(self, color: Color) -> (b: u8)
        ensures
            b == self.byte_of(color),
    {
        match color {
            Color::White => self.white,
            Color::Black => self.black,
        }
    }

    /// Whether `color` may castle with the rook on file `x`.
    pub fn get(self, color: Color, x: u8) -> (r: bool)
        requires
            x < 8,
        ensures
            r == self.has(color, x as int),
    {
        (self.byte(color) >> x) & 1 == 1
    }

    /// Grants `color` the right to castle with the rook on file `x`.
    pub fn add(&mut self, color: Color, x: u8)
        requires
            x < 8,
        ensures
            *final(self) == old(self).added(color, x as int),
    {
        match color {
            Color::White => self.white = self.white | (1u8 << x),
            Color::Black => self.black = self.black | (1u8 << x),
        }
    }

    /// A copy with the right added.
    pub fn to_added(self, color: Color, x: u8) -> (r: CastlingRight)
        requires
            x < 8,
        ensures
            r == self.added(color, x as int),
    {
        let mut new = self;
        new.add(color, x);
        new
    }

    /// Takes away the right to castle with the rook on file `x`.
    pub fn remove(&mut self, color: Color, x: u8)
        requires
            x < 8,
        ensures
            *final(self) == old(self).removed(color, x as int),
    {
        match color {
            Color::White => self.white = self.white & !(1u8 << x),
            Color::Black => self.black = self.black & !(1u8 << x),
        }
    }

    /// A copy with the right removed.
    pub fn to_removed(self, color: Color, x: u8) -> (r: CastlingRight)
        requires
            x < 8,
        ensures
            r == self.removed(color, x as int),
    {
        let mut new = self;
        new.remove(color, x);
        new
    }

    /// Takes away every castling right of `color`.
    pub fn clear(&mut self, color: Color)
        ensures
            *final(self) == old(self).cleared(color),
    {
        match color {
            Color::White => self.white = 0,
            Color::Black => self.black = 0,
        }
    }

    /// A copy with the rights of `color` cleared.
    pub fn to_cleared(self, color: Color) -> (r: CastlingRight)
        ensures
            r == self.cleared(color),
    {
        let mut new = self;
        new.clear(color);
        new
    }

    /// The same rights, to be shown in standard notation.
    pub fn standard_fen_display(self) -> (r: StandardCastlingRight)
        ensures
            r == StandardCastlingRight(self),
    {
        StandardCastlingRight(self)
    }

    /// Takes away the right of a rook captured on its own first rank.
    pub fn remove_for_rook_capture(&mut self, captured: Piece)
        requires
            captured.position.x < 8,
        ensures
            *final(self) == old(self).after_capture(captured),
    {
        if captured.piece() == PieceKind::Rook && captured.position.y == home_rank(captured.color()) {
            self.remove(captured.color(), captured.position.x);
        }
    }

    /// A copy with the right of a captured rook taken away.
    pub fn to_removed_for_rook_capture(self, captured: Piece) -> (r: CastlingRight)
        requires
            captured.position.x < 8,
        ensures
            r == self.after_capture(captured),
    {
        let mut new = self;
        new.remove_for_rook_capture(captured);
        new
    }

    /// The rights as FEN shows them in Chess960 (Shredder) notation: white
    /// files as `A`-`H`, then black files as `a`-`h`, or `-` when empty.
    pub fn to_text(self) -> (s: String)
        ensures
            s@ == castling_text(self),
    {
        let mut s = String::new();
        let mut x: u8 = 0;
        while x < 8
            invariant
                0 <= x <= 8,
                s@ + file_letters(self.white, x as int, 65) == file_letters(self.white, 0, 65),
            decreases 8 - x,
        {
            if self.get(Color::White, x) {
                proof {
                    assert(s@.push((65 + x) as char) + file_letters(self.white, x + 1, 65) =~= s@
                        + file_letters(self.white, x as int, 65));
                }
                push_char(&mut s, (65u8 + x) as char);
            }
            x = x + 1;
        }
        proof {
            assert(s@ =~= file_letters(self.white, 0, 65));
        }
        let ghost white_part = s@;
        x = 0;
        while x < 8
            invariant
                0 <= x <= 8,
                s@ + file_letters(self.black, x as int, 97) == white_part + file_letters(self.black, 0, 97),
            decreases 8 - x,
        {
            if self.get(Color::Black, x) {
                proof {
                    assert(s@.push((97 + x) as char) + file_letters(self.black, x + 1, 97) =~= s@
                        + file_letters(self.black, x as int, 97));
                }
                push_char(&mut s, (97u8 + x) as char);
            }
            x = x + 1;
        }
        proof {
            assert(s@ =~= white_part + file_letters(self.black, 0, 97));
        }
        if s.unicode_len() == 0 {
            push_char(&mut s, '-');
            proof {
                assert(s@ =~= seq!['-']);
            }
        }
        s
    }

    /// Reads a castling field: `K`, `Q`, `k`, `q`, file letters and `-`.
    pub fn parse(s: &str) -> (r: Result<CastlingRight, InvalidCastlingCharacter>)
        ensures
            match r {
                Ok(cr) => (forall|i: int| 0 <= i < s@.len() ==> castling_char_valid(#[trigger] s@[i]))
                    && forall|c: Color, x: int|
                    0 <= x < 8 ==> #[trigger] cr.has(c, x) == (exists|i: int|
                        0 <= i < s@.len() && #[trigger] castling_char(s@[i]) == Some((c, x))),
                Err(InvalidCastlingCharacter(c)) => exists|i: int|
                    0 <= i < s@.len() && s@[i] == c && !castling_char_valid(c) && (forall|j: int|
                        0 <= j < i ==> castling_char_valid(#[trigger] s@[j])),
            },
    {
        let mut castling_right = CastlingRight::none();
        let n = s.unicode_len();
        let mut i: usize = 0;
        while i < n
            invariant
                n == s@.len(),
                0 <= i <= n,
                forall|j: int| 0 <= j < i ==> castling_char_valid(#[trigger] s@[j]),
                forall|c: Color, x: int|
                    0 <= x < 8 ==> #[trigger] castling_right.has(c, x) == (exists|j: int|
                        0 <= j < i && #[trigger] castling_char(s@[j]) == Some((c, x))),
            decreases n - i,
        {
            let c = s.get_char(i);
            let ghost before = castling_right;
            let entry: Option<(Color, u8)> = if c == 'Q' {
                Some((Color::White, ROOK_ORIGIN_QUEENSIDE))
            } else if c == 'K' {
                Some((Color::White, ROOK_ORIGIN_KINGSIDE))
            } else if c == 'q' {
                Some((Color::Black, ROOK_ORIGIN_QUEENSIDE))
            } else if c == 'k' {
                Some((Color::Black, ROOK_ORIGIN_KINGSIDE))
            } else if 'A' <= c && c <= 'H' {
                Some((Color::White, (c as u32 - 65) as u8))
            } else if 'a' <= c && c <= 'h' {
                Some((Color::Black, (c as u32 - 97) as u8))
            } else if c == '-' {
                None
            } else {
                return Err(InvalidCastlingCharacter(c));
            };
            match entry {
                Some((color, x)) => {
                    proof {
                        before.lemma_added(color, x as int);
                        assert(castling_char(c) == Some((color, x as int)));
                        assert forall|cc: Color, xx: int| 0 <= xx < 8 implies #[trigger] before.added(color, x as int).has(cc, xx) == (exists|j: int|
                            0 <= j < i + 1 && #[trigger] castling_char(s@[j]) == Some((cc, xx))) by {
                            if cc == color && xx == x {
                                assert(castling_char(s@[i as int]) == Some((cc, xx)));
                            }
                            if exists|j: int| 0 <= j < i + 1 && #[trigger] castling_char(s@[j]) == Some((cc, xx)) {
                                let j = choose|j: int| 0 <= j < i + 1 && #[trigger] castling_char(s@[j]) == Some((cc, xx));
                                if j < i {
                                } else {
                                    assert(j == i);
                                }
                            }
                        }
                    }
                    castling_right.add(color, x);
                },
                None => {
                    proof {
                        assert(castling_char(c) is None);
                        assert forall|cc: Color, xx: int| 0 <= xx < 8 implies #[trigger] castling_right.has(cc, xx) == (exists|j: int|
                            0 <= j < i + 1 && #[trigger] castling_char(s@[j]) == Some((cc, xx))) by {
                            if exists|j: int| 0 <= j < i + 1 && #[trigger] castling_char(s@[j]) == Some((cc, xx)) {
                                let j = choose|j: int| 0 <= j < i + 1 && #[trigger] castling_char(s@[j]) == Some((cc, xx));
                                assert(j != i);
                            }
                        }
                    }
                },
            }
            i = i + 1;
        }
        Ok(castling_right)
    }
}

/// FEN castling text in Chess960 notation.
pub open spec fn castling_text(cr: CastlingRight) -> Seq<char> {
    let t = file_letters(cr.white, 0, 65) + file_letters(cr.black, 0, 97);
    if t.len() == 0 {
        seq!['-']
    } else {
        t
    }
}

/// FEN castling text in standard notation: for each side, files from h to a,
/// with `K`/`Q` (`k`/`q`) for the h- and a-files.
pub open spec fn standard_castling_text(cr: CastlingRight) -> Seq<char> {
    let t = standard_letters(cr.white, Color::White, 7) + standard_letters(cr.black, Color::Black, 7);
    if t.len() == 0 {
        seq!['-']
    } else {
        t
    }
}

impl StandardCastlingRight {
    /// The rights as text in standard notation.
    pub fn to_text(self) -> (s: String)
        ensures
            s@ == standard_castling_text(self.0),
    {
        let cr = self.0;
        let mut s = String::new();
        let mut colors: usize = 0;
        while colors < 2
            invariant
                0 <= colors <= 2,
                colors == 0 ==> s@ == Seq::<char>::empty(),
                colors == 1 ==> s@ == standard_letters(cr.white, Color::White, 7),
                colors == 2 ==> s@ == standard_letters(cr.white, Color::White, 7) + standard_letters(cr.black, Color::Black, 7),
            decreases 2 - colors,
        {
            let color = if colors == 0 {
                Color::White
            } else {
                Color::Black
            };
            let ghost start = s@;
            let mut x: i8 = 7;
            while x >= 0
                invariant
                    -1 <= x <= 7,
                    s@ + standard_letters(cr.byte_of(color), color, x as int) == start + standard_letters(cr.byte_of(color), color, 7),
                decreases x + 1,
            {
                if cr.get(color, x as u8) {
                    let c = match color {
                        Color::White => if x == 0 {
                            'Q'
                        } else if x == 7 {
                            'K'
                        } else {
                            (65u8 + x as u8) as char
                        },
                        Color::Black => if x == 0 {
                            'q'
                        } else if x == 7 {
                            'k'
                        } else {
                            (97u8 + x as u8) as char
                        },
                    };
                    proof {
                        assert(c == standard_letter(color, x as int));
                        assert(s@.push(c) + standard_letters(cr.byte_of(color), color, x - 1) =~= s@
                            + standard_letters(cr.byte_of(color), color, x as int));
                    }
                    push_char(&mut s, c);
                }
                x = x - 1;
            }
            proof {
                assert(s@ =~= start + standard_letters(cr.byte_of(color), color, 7));
            }
            colors = colors + 1;
        }
        if s.unicode_len() == 0 {
            push_char(&mut s, '-');
            proof {
                assert(s@ =~= seq!['-']);
            }
        }
        s
    }

    /// Reads a castling field (either notation).
    pub fn parse(s: &str) -> (r: Result<StandardCastlingRight, InvalidCastlingCharacter>)
        ensures
            r == (match CastlingRight::parse_result(s@) {
                Ok(cr) => Ok::<StandardCastlingRight, InvalidCastlingCharacter>(StandardCastlingRight(cr)),
                Err(e) => Err(e),
            }),
    {
        let r = CastlingRight::parse(s);
        proof {
            CastlingRight::lemma_parse_determined(s@, r);
        }
        match r {
            Ok(cr) => Ok(StandardCastlingRight(cr)),
            Err(e) => Err(e),
        }
    }
}

impl CastlingRight {
    /// The one result that `parse` can give for a text.
    pub open spec fn parse_result(s: Seq<char>) -> Result<CastlingRight, InvalidCastlingCharacter> {
        if forall|i: int| 0 <= i < s.len() ==> castling_char_valid(#[trigger] s[i]) {
            Ok(choose|cr: CastlingRight| #![trigger cr.white] forall|c: Color, x: int|
                0 <= x < 8 ==> #[trigger] cr.has(c, x) == (exists|i: int|
                    0 <= i < s.len() && #[trigger] castling_char(s[i]) == Some((c, x))))
        } else {
            let i = choose|i: int| 0 <= i < s.len() && !castling_char_valid(s[i]) && (forall|j: int|
                0 <= j < i ==> castling_char_valid(#[trigger] s[j]));
            Err(InvalidCastlingCharacter(s[i]))
        }
    }

    /// The outcome that `parse` describes is unique.
    pub proof fn lemma_parse_determined(s: Seq<char>, r: Result<CastlingRight, InvalidCastlingCharacter>)
        requires
            match r {
                Ok(cr) => (forall|i: int| 0 <= i < s.len() ==> castling_char_valid(#[trigger] s[i]))
                    && forall|c: Color, x: int|
                    0 <= x < 8 ==> #[trigger] cr.has(c, x) == (exists|i: int|
                        0 <= i < s.len() && #[trigger] castling_char(s[i]) == Some((c, x))),
                Err(InvalidCastlingCharacter(c)) => exists|i: int|
                    0 <= i < s.len() && s[i] == c && !castling_char_valid(c) && (forall|j: int|
                        0 <= j < i ==> castling_char_valid(#[trigger] s[j])),
            },
        ensures
            r == Self::parse_result(s),
    {
        match r {
            Ok(cr) => {
                let _w = cr.white;
                assert(exists|cr2: CastlingRight| #![trigger cr2.white] forall|c: Color, x: int|
                    0 <= x < 8 ==> #[trigger] cr2.has(c, x) == (exists|i: int|
                        0 <= i < s.len() && #[trigger] castling_char(s[i]) == Some((c, x))));
                let other = choose|cr: CastlingRight| #![trigger cr.white] forall|c: Color, x: int|
                    0 <= x < 8 ==> #[trigger] cr.has(c, x) == (exists|i: int|
                        0 <= i < s.len() && #[trigger] castling_char(s[i]) == Some((c, x)));
                assert(forall|c: Color, x: int|
                    0 <= x < 8 ==> #[trigger] other.has(c, x) == (exists|i: int|
                        0 <= i < s.len() && #[trigger] castling_char(s[i]) == Some((c, x))));
                assert forall|x: int| 0 <= x < 8 implies bit(cr.white, x) == bit(other.white, x) by {
                    assert(cr.has(Color::White, x) == other.has(Color::White, x));
                }
                assert forall|x: int| 0 <= x < 8 implies bit(cr.black, x) == bit(other.black, x) by {
                    assert(cr.has(Color::Black, x) == other.has(Color::Black, x));
                }
                lemma_byte_ext(cr.white, other.white);
                lemma_byte_ext(cr.black, other.black);
            },
            Err(InvalidCastlingCharacter(c)) => {
                let i = choose|i: int| 0 <= i < s.len() && s[i] == c && !castling_char_valid(c) && (forall|j: int|
                    0 <= j < i ==> castling_char_valid(#[trigger] s[j]));
                let k = choose|i: int| 0 <= i < s.len() && !castling_char_valid(s[i]) && (forall|j: int|
                    0 <= j < i ==> castling_char_valid(#[trigger] s[j]));
                if i < k {
                    assert(castling_char_valid(s[i]));
                } else if k < i {
                    assert(castling_char_valid(s[k]));
                }
            },
        }
    }
}

/// The letter base of a side's files in Chess960 notation.
pub open spec fn letter_base(color: Color) -> int {
    match color {
        Color::White => 65,
        Color::Black => 97,
    }
}

/// The letters of the set files from file `x` up read back as those files
/// of the side.
proof fn lemma_file_letters_read(b: u8, color: Color, x: int)
    requires
        0 <= x <= 8,
    ensures
        forall|i: int|
            0 <= i < file_letters(b, x, letter_base(color)).len() ==> exists|f: int|
                x <= f < 8 && bit(b, f) && #[trigger] castling_char(file_letters(b, x, letter_base(color))[i])
                    == Some((color, f)),
        forall|f: int|
            x <= f < 8 && bit(b, f) ==> exists|i: int|
                0 <= i < file_letters(b, x, letter_base(color)).len() && #[trigger] castling_char(
                    file_letters(b, x, letter_base(color))[i],
                ) == Some((color, f)),
    decreases 8 - x,
{
    if x < 8 {
        lemma_file_letters_read(b, color, x + 1);
        let base = letter_base(color);
        let rest = file_letters(b, x + 1, base);
        let t = file_letters(b, x, base);
        if bit(b, x) {
            assert(t == seq![(base + x) as char] + rest);
            assert(castling_char(t[0]) == Some((color, x)));
            assert forall|i: int| 0 <= i < t.len() implies exists|f: int|
                x <= f < 8 && bit(b, f) && #[trigger] castling_char(t[i]) == Some((color, f)) by {
                if i > 0 {
                    assert(t[i] == rest[i - 1]);
                }
            }
            assert forall|f: int| x <= f < 8 && bit(b, f) implies exists|i: int|
                0 <= i < t.len() && #[trigger] castling_char(t[i]) == Some((color, f)) by {
                if f > x {
                    let i = choose|i: int| 0 <= i < rest.len() && #[trigger] castling_char(rest[i]) == Some((color, f));
                    assert(t[i + 1] == rest[i]);
                }
            }
        }
    }
}

/// The standard letters of the set files from file `x` down read back as
/// those files of the side.
proof fn lemma_standard_letters_read(b: u8, color: Color, x: int)
    requires
        -1 <= x < 8,
    ensures
        forall|i: int|
            0 <= i < standard_letters(b, color, x).len() ==> exists|f: int|
                0 <= f <= x && bit(b, f) && #[trigger] castling_char(standard_letters(b, color, x)[i])
                    == Some((color, f)),
        forall|f: int|
            0 <= f <= x && bit(b, f) ==> exists|i: int|
                0 <= i < standard_letters(b, color, x).len() && #[trigger] castling_char(
                    standard_letters(b, color, x)[i],
                ) == Some((color, f)),
    decreases x + 1,
{
    if x >= 0 {
        lemma_standard_letters_read(b, color, x - 1);
        let rest = standard_letters(b, color, x - 1);
        let t = standard_letters(b, color, x);
        if bit(b, x) {
            assert(t == seq![standard_letter(color, x)] + rest);
            assert(castling_char(t[0]) == Some((color, x)));
            assert forall|i: int| 0 <= i < t.len() implies exists|f: int|
                0 <= f <= x && bit(b, f) && #[trigger] castling_char(t[i]) == Some((color, f)) by {
                if i > 0 {
                    assert(t[i] == rest[i - 1]);
                }
            }
            assert forall|f: int| 0 <= f <= x && bit(b, f) implies exists|i: int|
                0 <= i < t.len() && #[trigger] castling_char(t[i]) == Some((color, f)) by {
                if f < x {
                    let i = choose|i: int| 0 <= i < rest.len() && #[trigger] castling_char(rest[i]) == Some((color, f));
                    assert(t[i + 1] == rest[i]);
                }
            }
        }
    }
}

/// Reading a text made of the letters of both sides gives back the rights.
proof fn lemma_letters_read_back(cr: CastlingRight, w: Seq<char>, bl: Seq<char>)
    requires
        forall|i: int| 0 <= i < w.len() ==> exists|f: int|
            0 <= f < 8 && bit(cr.white, f) && #[trigger] castling_char(w[i]) == Some((Color::White, f)),
        forall|f: int| 0 <= f < 8 && bit(cr.white, f) ==> exists|i: int|
            0 <= i < w.len() && #[trigger] castling_char(w[i]) == Some((Color::White, f)),
        forall|i: int| 0 <= i < bl.len() ==> exists|f: int|
            0 <= f < 8 && bit(cr.black, f) && #[trigger] castling_char(bl[i]) == Some((Color::Black, f)),
        forall|f: int| 0 <= f < 8 && bit(cr.black, f) ==> exists|i: int|
            0 <= i < bl.len() && #[trigger] castling_char(bl[i]) == Some((Color::Black, f)),
    ensures
        CastlingRight::parse_result(if (w + bl).len() == 0 {
            seq!['-']
        } else {
            w + bl
        }) == Ok::<CastlingRight, InvalidCastlingCharacter>(cr),
{
    let t = w + bl;
    let s = if t.len() == 0 {
        seq!['-']
    } else {
        t
    };
    assert forall|i: int| 0 <= i < s.len() implies castling_char_valid(#[trigger] s[i]) by {
        if t.len() > 0 {
            if i < w.len() {
                assert(s[i] == w[i]);
            } else {
                assert(s[i] == bl[i - w.len()]);
            }
        }
    }
    assert forall|c: Color, x: int| 0 <= x < 8 implies #[trigger] cr.has(c, x) == (exists|i: int|
        0 <= i < s.len() && #[trigger] castling_char(s[i]) == Some((c, x))) by {
        if cr.has(c, x) {
            if c == Color::White {
                let i = choose|i: int| 0 <= i < w.len() && #[trigger] castling_char(w[i]) == Some((Color::White, x));
                assert(s[i] == w[i]);
            } else {
                let i = choose|i: int| 0 <= i < bl.len() && #[trigger] castling_char(bl[i]) == Some((Color::Black, x));
                assert(s[w.len() + i] == bl[i]);
            }
        }
        if exists|i: int| 0 <= i < s.len() && #[trigger] castling_char(s[i]) == Some((c, x)) {
            let i = choose|i: int| 0 <= i < s.len() && #[trigger] castling_char(s[i]) == Some((c, x));
            if t.len() > 0 {
                if i < w.len() {
                    assert(s[i] == w[i]);
                } else {
                    assert(s[i] == bl[i - w.len()]);
                }
            }
        }
    }
    CastlingRight::lemma_parse_determined(s, Ok(cr));
}

/// Reading the castling text of some rights, in either notation, gives back
/// those rights.
pub proof fn lemma_castling_text_round_trip(cr: CastlingRight)
    ensures
        CastlingRight::parse_result(castling_text(cr)) == Ok::<CastlingRight, InvalidCastlingCharacter>(cr),
        CastlingRight::parse_result(standard_castling_text(cr)) == Ok::<CastlingRight, InvalidCastlingCharacter>(
            cr,
        ),
{
    lemma_file_letters_read(cr.white, Color::White, 0);
    lemma_file_letters_read(cr.black, Color::Black, 0);
    lemma_letters_read_back(cr, file_letters(cr.white, 0, 65), file_letters(cr.black, 0, 97));
    lemma_standard_letters_read(cr.white, Color::White, 7);
    lemma_standard_letters_read(cr.black, Color::Black, 7);
    lemma_letters_read_back(cr, standard_letters(cr.white, Color::White, 7), standard_letters(cr.black, Color::Black, 7));
}

} // verus!
