use vstd::prelude::*;
use crate::color::{Color, InvalidByte};

verus! {

/// The file (x) on which the king starts in standard chess (the e-file).
pub const KING_ORIGIN: u8 = 4;
/// The file of the queenside rook in standard chess (the a-file).
pub const ROOK_ORIGIN_QUEENSIDE: u8 = 0;
/// The file of the kingside rook in standard chess (the h-file).
pub const ROOK_ORIGIN_KINGSIDE: u8 = 7;
/// Where the king lands after castling kingside (the g-file).
pub const CASTLING_KING_DESTINATION_KINGSIDE: u8 = 6;
/// Where the rook lands after castling kingside (the f-file).
pub const CASTLING_ROOK_DESTINATION_KINGSIDE: u8 = 5;
/// Where the king lands after castling queenside (the c-file).
pub const CASTLING_KING_DESTINATION_QUEENSIDE: u8 = 2;
/// Where the rook lands after castling queenside (the d-file).
pub const CASTLING_ROOK_DESTINATION_QUEENSIDE: u8 = 3;
/// The a-file.
pub const FIRST_FILE: u8 = 0;
/// The h-file.
pub const LAST_FILE: u8 = 7;

/// Error returned when text does not name a square.
#[derive(Debug, Clone, Copy, PartialEq, Eq, Hash, Structural)]
pub enum ParseCoordError {
    InvalidX(char),
    InvalidY(char),
    NotEnoughCharacter(u8),
    Unexpected(char),
}

/// A square of the board. `x` is the file (0 is the a-file) and `y` the row
/// from the top as white sees the board (0 is the eighth rank, 7 the first).
#[derive(Debug, Clone, Copy, PartialEq, Eq, Hash, Structural)]
pub struct Coord {
    pub x: u8,
    pub y: u8,
}

/// A displacement between two squares.
#[derive(Debug, Clone, Copy, PartialEq, Eq, Hash, Structural)]
pub struct Vector {
    pub x: i8,
    pub y: i8,
}

/// Whether integer coordinates lie on the board.
pub open spec fn on_board(x: int, y: int) -> bool {
    0 <= x < 8 && 0 <= y < 8
}

/// The square with the given integer coordinates (meaningful on the board).
pub open spec fn square(x: int, y: int) -> Coord {
    Coord { x: x as u8, y: y as u8 }
}

/// Sign of an integer.
pub open spec fn sign(a: int) -> int {
    if a > 0 {
        1
    } else if a < 0 {
        -1
    } else {
        0
    }
}

/// Absolute value of an integer.
pub open spec fn abs_int(a: int) -> int {
    if a < 0 {
        -a
    } else {
        a
    }
}

/// Row index (from the top) of a side's first rank.
pub open spec fn home_rank_of(color: Color) -> int {
    match color {
        Color::White => 7,
        Color::Black => 0,
    }
}

/// Row index of the rank that a side's pawns start on.
pub open spec fn pawn_home_rank_of(color: Color) -> int {
    match color {
        Color::White => 6,
        Color::Black => 1,
    }
}

/// Row index of the rank on which a side's pawns promote.
pub open spec fn promotion_rank_of(color: Color) -> int {
    match color {
        Color::White => 0,
        Color::Black => 7,
    }
}

/// The direction of a side's pawn moves along the y axis.
pub open spec fn pawn_dir(color: Color) -> int {
    match color {
        Color::White => -1,
        Color::Black => 1,
    }
}

/// The side whose pawn, having just moved two squares, leaves an en passant
/// target on row `y` (rank 3 for white, rank 6 for black).
pub open spec fn en_passant_color_of(y: int) -> Option<Color> {
    if y == 5 {
        Some(Color::White)
    } else if y == 2 {
        Some(Color::Black)
    } else {
        None
    }
}

/// The squares reached from `c` by `k`, `k + 1`, ... steps of `d`, for as long
/// as they stay on the board.
pub open spec fn ray(c: Coord, d: Vector, k: int) -> Seq<Coord>
    decreases 9 - k,
{
    if k > 8 || !on_board(c.x + d.x * k, c.y + d.y * k) {
        Seq::empty()
    } else {
        seq![square(c.x + d.x * k, c.y + d.y * k)] + ray(c, d, k + 1)
    }
}

/// The longest prefix of `s` that does not contain `e`.
pub open spec fn prefix_until(s: Seq<Coord>, e: Coord) -> Seq<Coord>
    decreases s.len(),
{
    if s.len() == 0 {
        s
    } else if s[0] == e {
        Seq::empty()
    } else {
        seq![s[0]] + prefix_until(s.drop_first(), e)
    }
}

/// The longest prefix of `s` that ends at the first `e`, or all of `s`.
pub open spec fn prefix_through(s: Seq<Coord>, e: Coord) -> Seq<Coord>
    decreases s.len(),
{
    if s.len() == 0 {
        s
    } else if s[0] == e {
        seq![s[0]]
    } else {
        seq![s[0]] + prefix_through(s.drop_first(), e)
    }
}

/// Drops the first element of a non-empty sequence.
pub open spec fn skip_one(s: Seq<Coord>) -> Seq<Coord> {
    if s.len() == 0 {
        s
    } else {
        s.drop_first()
    }
}

/// Whether a vector is a unit step in one of the eight directions.
pub open spec fn is_unit_direction(d: Vector) -> bool {
    -1 <= d.x <= 1 && -1 <= d.y <= 1 && !(d.x == 0 && d.y == 0)
}

impl Coord {
    /// Whether the square lies on the board.
    pub open spec fn wf(self) -> bool {
        self.x < 8 && self.y < 8
    }

    /// The square `dx` files and `dy` rows away, when on the board.
    pub open spec fn shifted(self, dx: int, dy: int) -> Option<Coord> {
        if on_board(self.x + dx, self.y + dy) {
            Some(square(self.x + dx, self.y + dy))
        } else {
            None
        }
    }

    /// Square color: white when `x + y` is even.
    pub open spec fn shade(self) -> Color {
        if (self.x + self.y) % 2 == 0 {
            Color::White
        } else {
            Color::Black
        }
    }

    /// The displacement from `rhs` to `self`.
    pub open spec fn minus_spec(self, rhs: Coord) -> Vector {
        Vector { x: (self.x - rhs.x) as i8, y: (self.y - rhs.y) as i8 }
    }

    /// Whether the square lies in the rectangle spanned by two corners.
    pub open spec fn inside_spec(self, b1: Coord, b2: Coord) -> bool {
        ((b1.x <= self.x <= b2.x) || (b2.x <= self.x <= b1.x)) && ((b1.y <= self.y <= b2.y) || (
        b2.y <= self.y <= b1.y))
    }

    pub fn new(x: u8, y: u8) -> (c: Coord)
        requires
            x < 8,
            y < 8,
        ensures
            c.x == x,
            c.y == y,
            c.wf(),
    {
        Coord { x, y }
    }

    /// Reads a file letter (`a` to `h`) and a rank digit (`1` to `8`).
    pub fn from_chars(x: char, y: char) -> (r: Result<Coord, ParseCoordError>)
        ensures
            r == (if !('a' <= x <= 'h') {
                Err::<Coord, ParseCoordError>(ParseCoordError::InvalidX(x))
            } else if !('1' <= y <= '8') {
                Err(ParseCoordError::InvalidY(y))
            } else {
                Ok(square(x as int - 'a' as int, 7 - (y as int - '1' as int)))
            }),
            r is Ok ==> r->Ok_0.wf(),
    {
        if !('a' <= x && x <= 'h') {
            return Err(ParseCoordError::InvalidX(x));
        }
        if !('1' <= y && y <= '8') {
            return Err(ParseCoordError::InvalidY(y));
        }
        let xn = (x as u32 - 'a' as u32) as u8;
        let yn = 7 - (y as u32 - '1' as u32) as u8;
        Ok(Coord::new(xn, yn))
    }

    /// The square at the given coordinates, or `None` when off the board.
    pub fn new_checked(x: u8, y: u8) -> (r: Option<Coord>)
        ensures
            r == (if x >= 8 || y >= 8 {
                None::<Coord>
            } else {
                Some(Coord { x, y })
            }),
    {
        if x >= 8 || y >= 8 {
            None
        } else {
            Some(Coord::new(x, y))
        }
    }

    pub fn x(self) -> (r: u8)
        ensures
            r == self.x,
    {
        self.x
    }

    pub fn y(self) -> (r: u8)
        ensures
            r == self.y,
    {
        self.y
    }

    /// The square reached by a displacement, or `None` when off the board.
    pub fn move_by(self, movement: Vector) -> (r: Option<Coord>)
        requires
            self.wf(),
        ensures
            r == self.shifted(movement.x as int, movement.y as int),
    {
        let x = match self.x.checked_add_signed(movement.x) {
            Some(x) => x,
            None => return None,
        };
        let y = match self.y.checked_add_signed(movement.y) {
            Some(y) => y,
            None => return None,
        };
        Coord::new_checked(x, y)
    }

    /// The displacement from `rhs` to `self`.
    pub fn minus(self, rhs: Coord) -> (v: Vector)
        requires
            self.wf(),
            rhs.wf(),
        ensures
            v == self.minus_spec(rhs),
            v.x == self.x - rhs.x,
            v.y == self.y - rhs.y,
    {
        Vector { x: self.x as i8 - rhs.x as i8, y: self.y as i8 - rhs.y as i8 }
    }

    /// Whether this square is in the rectangle spanned by the two bounds.
    pub fn is_inside_of(self, bound_1: Coord, bound_2: Coord) -> (r: bool)
        ensures
            r == self.inside_spec(bound_1, bound_2),
    {
        let (min_x, max_x) = if bound_1.x <= bound_2.x {
            (bound_1.x, bound_2.x)
        } else {
            (bound_2.x, bound_1.x)
        };
        let (min_y, max_y) = if bound_1.y <= bound_2.y {
            (bound_1.y, bound_2.y)
        } else {
            (bound_2.y, bound_1.y)
        };
        min_x <= self.x && self.x <= max_x && min_y <= self.y && self.y <= max_y
    }

    /// The color of the square.
    pub fn color(self) -> (c: Color)
        requires
            self.wf(),
        ensures
            c == self.shade(),
    {
        if (self.x + self.y) % 2 == 0 {
            Color::White
        } else {
            Color::Black
        }
    }

    /// The squares `start`, `start + 1`, ... steps of `direction` away, while on the board.
    pub fn line(self, direction: Vector, start: i8) -> (r: Vec<Coord>)
        requires
            self.wf(),
            is_unit_direction(direction),
            start == i8::MIN ==> direction.x >= 0 && direction.y >= 0,
        ensures
            r@ == ray(self, direction, start as int),
    {
        let mut result: Vec<Coord> = Vec::new();
        if start > 8 {
            assert(ray(self, direction, start as int) =~= Seq::empty());
            return result;
        }
        let mut k: i8 = start;
        loop
            invariant
                self.wf(),
                is_unit_direction(direction),
                start <= k <= 9,
                k == i8::MIN ==> direction.x >= 0 && direction.y >= 0,
                result@ + ray(self, direction, k as int) == ray(self, direction, start as int),
            decreases 9 - k,
        {
            if k > 8 {
                assert(ray(self, direction, k as int) =~= Seq::empty());
                assert(result@ =~= result@ + ray(self, direction, k as int));
                return result;
            }
            let dx: i8 = if direction.x == 0 {
                0
            } else if direction.x > 0 {
                k
            } else {
                -k
            };
            let dy: i8 = if direction.y == 0 {
                0
            } else if direction.y > 0 {
                k
            } else {
                -k
            };
            assert(dx == direction.x * k) by (nonlinear_arith)
                requires
                    dx == (if direction.x == 0 { 0 } else if direction.x > 0 { k as int } else { -k }),
                    -1 <= direction.x <= 1,
            ;
            assert(dy == direction.y * k) by (nonlinear_arith)
                requires
                    dy == (if direction.y == 0 { 0 } else if direction.y > 0 { k as int } else { -k }),
                    -1 <= direction.y <= 1,
            ;
            let x = self.x as i16 + dx as i16;
            let y = self.y as i16 + dy as i16;
            if x < 0 || x >= 8 || y < 0 || y >= 8 {
                assert(ray(self, direction, k as int) =~= Seq::empty());
                assert(result@ =~= result@ + ray(self, direction, k as int));
                return result;
            }
            let c = Coord::new(x as u8, y as u8);
            proof {
                assert(ray(self, direction, k as int) == seq![c] + ray(
                    self,
                    direction,
                    k + 1,
                ));
                assert(result@.push(c) + ray(self, direction, k + 1) =~= result@ + (seq![c] + ray(
                    self,
                    direction,
                    k + 1,
                )));
            }
            result.push(c);
            k = k + 1;
        }
    }

    /// The squares from this one (included) onward in a direction.
    pub fn line_inclusive(self, direction: Vector) -> (r: Vec<Coord>)
        requires
            self.wf(),
            is_unit_direction(direction),
        ensures
            r@ == ray(self, direction, 0),
    {
        self.line(direction, 0)
    }

    /// The squares after this one onward in a direction.
    pub fn line_exclusive(self, direction: Vector) -> (r: Vec<Coord>)
        requires
            self.wf(),
            is_unit_direction(direction),
        ensures
            r@ == ray(self, direction, 1),
    {
        self.line(direction, 1)
    }

    /// The squares from this one (included) toward `end` (excluded).
    pub fn line_inclusive_exclusive(self, end: Coord, direction: Vector) -> (r: Vec<Coord>)
        requires
            self.wf(),
            is_unit_direction(direction),
        ensures
            r@ == prefix_until(ray(self, direction, 0), end),
    {
        let all = self.line_inclusive(direction);
        take_until(&all, end)
    }

    /// The squares strictly between this one and `end`.
    pub fn line_exclusive_exclusive(self, end: Coord, direction: Vector) -> (r: Vec<Coord>)
        requires
            self.wf(),
            is_unit_direction(direction),
        ensures
            r@ == skip_one(prefix_until(ray(self, direction, 0), end)),
    {
        let v = self.line_inclusive_exclusive(end, direction);
        drop_first(&v)
    }

    /// The squares from this one through `end`, both included.
    pub fn line_inclusive_inclusive(self, end: Coord, direction: Vector) -> (r: Vec<Coord>)
        requires
            self.wf(),
            is_unit_direction(direction),
        ensures
            r@ == prefix_through(ray(self, direction, 0), end),
    {
        let all = self.line_inclusive(direction);
        take_through(&all, end)
    }

    /// The squares after this one through `end` (included).
    pub fn line_exclusive_inclusive(self, end: Coord, direction: Vector) -> (r: Vec<Coord>)
        requires
            self.wf(),
            is_unit_direction(direction),
        ensures
            r@ == skip_one(prefix_through(ray(self, direction, 0), end)),
    {
        let v = self.line_inclusive_inclusive(end, direction);
        drop_first(&v)
    }

    /// When `other` is reached from this square along one of `directions`,
    /// the squares strictly between them, for the first such direction.
    pub fn is_aligned(self, other: Coord, directions: &[Vector]) -> (r: Option<Vec<Coord>>)
        requires
            self.wf(),
            other.wf(),
            forall|i: int| 0 <= i < directions@.len() ==> is_unit_direction(#[trigger] directions@[i]),
        ensures
            match r {
                Some(v) => exists|i: int|
                    0 <= i < directions@.len() && aligned_spec(directions@[i], other.minus_spec(self))
                        && (forall|j: int| 0 <= j < i ==> !aligned_spec(#[trigger] directions@[j], other.minus_spec(self)))
                        && v@ == skip_one(prefix_until(ray(self, directions@[i], 0), other)),
                None => forall|i: int|
                    0 <= i < directions@.len() ==> !aligned_spec(#[trigger] directions@[i], other.minus_spec(self)),
            },
    {
        let diff = other.minus(self);
        let mut i: usize = 0;
        while i < directions.len()
            invariant
                self.wf(),
                other.wf(),
                diff == other.minus_spec(self),
                -7 <= diff.x <= 7,
                -7 <= diff.y <= 7,
                0 <= i <= directions@.len(),
                forall|i: int| 0 <= i < directions@.len() ==> is_unit_direction(#[trigger] directions@[i]),
                forall|j: int| 0 <= j < i ==> !aligned_spec(#[trigger] directions@[j], diff),
            decreases directions@.len() - i,
        {
            let d = directions[i];
            proof {
                assert(is_unit_direction(directions@[i as int]));
                assert(-7 <= d.x * diff.y <= 7 && -7 <= diff.x * d.y <= 7) by (nonlinear_arith)
                    requires
                        -1 <= d.x <= 1,
                        -1 <= d.y <= 1,
                        -7 <= diff.x <= 7,
                        -7 <= diff.y <= 7,
                ;
            }
            if d.is_aligned(diff) {
                let v = self.line_exclusive_exclusive(other, d);
                return Some(v);
            }
            i = i + 1;
        }
        None
    }

    /// `is_aligned` over the four diagonal directions.
    pub fn is_aligned_with_bishop(self, other: Coord) -> (r: Option<Vec<Coord>>)
        requires
            self.wf(),
            other.wf(),
        ensures
            r is Some <==> exists|i: int| 0 <= i < 4 && aligned_spec(bishop_directions_spec()[i], other.minus_spec(self)),
            r matches Some(v) ==> exists|i: int|
                0 <= i < 4 && aligned_spec(bishop_directions_spec()[i], other.minus_spec(self)) && v@ == skip_one(
                    prefix_until(ray(self, bishop_directions_spec()[i], 0), other),
                ),
    {
        let dirs = Vector::bishop_directions();
        proof { Self::lemma_dirs_unit(); }
        let r = self.is_aligned(other, dirs.as_slice());
        r
    }

    /// `is_aligned` over the four straight directions.
    pub fn is_aligned_with_rook(self, other: Coord) -> (r: Option<Vec<Coord>>)
        requires
            self.wf(),
            other.wf(),
        ensures
            r is Some <==> exists|i: int| 0 <= i < 4 && aligned_spec(rook_directions_spec()[i], other.minus_spec(self)),
            r matches Some(v) ==> exists|i: int|
                0 <= i < 4 && aligned_spec(rook_directions_spec()[i], other.minus_spec(self)) && v@ == skip_one(
                    prefix_until(ray(self, rook_directions_spec()[i], 0), other),
                ),
    {
        let dirs = Vector::rook_directions();
        proof { Self::lemma_dirs_unit(); }
        let r = self.is_aligned(other, dirs.as_slice());
        r
    }

    /// `is_aligned` over all eight directions.
    pub fn is_aligned_with_queen(self, other: Coord) -> (r: Option<Vec<Coord>>)
        requires
            self.wf(),
            other.wf(),
        ensures
            r is Some <==> exists|i: int| 0 <= i < 8 && aligned_spec(king_moves_spec()[i], other.minus_spec(self)),
            r matches Some(v) ==> exists|i: int|
                0 <= i < 8 && aligned_spec(king_moves_spec()[i], other.minus_spec(self)) && v@ == skip_one(
                    prefix_until(ray(self, king_moves_spec()[i], 0), other),
                ),
    {
        let dirs = Vector::king_moves();
        proof { Self::lemma_dirs_unit(); }
        let r = self.is_aligned(other, dirs.as_slice());
        r
    }

    proof fn lemma_dirs_unit()
        ensures
            forall|i: int| 0 <= i < 4 ==> is_unit_direction(#[trigger] bishop_directions_spec()[i]),
            forall|i: int| 0 <= i < 4 ==> is_unit_direction(#[trigger] rook_directions_spec()[i]),
            forall|i: int| 0 <= i < 8 ==> is_unit_direction(#[trigger] king_moves_spec()[i]),
    {
    }

    /// The square's name, such as `e4`.
    pub fn to_text(self) -> (s: String)
        requires
            self.wf(),
        ensures
            s@ == coord_text(self),
    {
        let mut s = String::new();
        push_char(&mut s, (self.x + 97u8) as char);
        push_char(&mut s, (8u8 - self.y + 48u8) as char);
        proof {
            assert(s@ =~= coord_text(self));
        }
        s
    }

    /// Reads a square name such as `e4`.
    pub fn parse(s: &str) -> (r: Result<Coord, ParseCoordError>)
        ensures
            r == parse_coord_spec(s@),
            r is Ok ==> r->Ok_0.wf(),
    {
        let n = s.unicode_len();
        if n == 0 {
            return Err(ParseCoordError::NotEnoughCharacter(0));
        }
        if n == 1 {
            return Err(ParseCoordError::NotEnoughCharacter(1));
        }
        if n > 2 {
            return Err(ParseCoordError::Unexpected(s.get_char(2)));
        }
        Coord::from_chars(s.get_char(0), s.get_char(1))
    }

    /// The byte encoding `10xxxyyy`.
    pub fn to_byte(self) -> (b: u8)
        requires
            self.wf(),
        ensures
            b == 0x80u8 | (self.x << 3u8) | self.y,
            0x80 <= b < 0xC0,
    {
        let x = self.x;
        let y = self.y;
        assert(0x80 <= (0x80u8 | (x << 3u8) | y) < 0xC0) by (bit_vector)
            requires
                x < 8,
                y < 8,
        ;
        0x80u8 | (x << 3u8) | y
    }

    /// Decodes the byte encoding `10xxxyyy`.
    pub fn try_from_byte(value: u8) -> (r: Result<Coord, InvalidByte>)
        ensures
            r is Ok <==> (value >> 6u8) & 3u8 == 2u8,
            r is Ok ==> r->Ok_0.wf() && r->Ok_0.x == (value >> 3u8) & 7u8 && r->Ok_0.y == value & 7u8,
    {
        if (value >> 6u8) & 3u8 == 2u8 {
            assert((value >> 3u8) & 7u8 < 8 && value & 7u8 < 8) by (bit_vector);
            Ok(Coord::new((value >> 3u8) & 7u8, value & 7u8))
        } else {
            Err(InvalidByte)
        }
    }

    /// Which side's pawn left an en passant target on row `y`.
    pub fn en_passant_target_color(y: u8) -> (r: Option<Color>)
        ensures
            r == en_passant_color_of(y as int),
    {
        if y == 5 {
            Some(Color::White)
        } else if y == 2 {
            Some(Color::Black)
        } else {
            None
        }
    }

    /// For an en passant target, the side that left it and the square of its pawn.
    pub fn pawn_from_en_passant_target(self) -> (r: Option<(Color, Coord)>)
        requires
            self.wf(),
        ensures
            r == (match en_passant_color_of(self.y as int) {
                Some(c) => Some((c, square(self.x as int, self.y + pawn_dir(c)))),
                None => None,
            }),
            r is Some ==> r.unwrap().1.wf(),
    {
        match Coord::en_passant_target_color(self.y) {
            Some(color) => {
                let y = if self.y == 5 {
                    4
                } else {
                    3
                };
                Some((color, Coord::new(self.x, y)))
            },
            None => None,
        }
    }
}

/// The name of a square: file letter then rank digit.
pub open spec fn coord_text(c: Coord) -> Seq<char> {
    seq![(c.x + 97) as char, (8 - c.y + 48) as char]
}

/// What reading a square name gives.
pub open spec fn parse_coord_spec(s: Seq<char>) -> Result<Coord, ParseCoordError> {
    if s.len() == 0 {
        Err(ParseCoordError::NotEnoughCharacter(0))
    } else if s.len() == 1 {
        Err(ParseCoordError::NotEnoughCharacter(1))
    } else if s.len() > 2 {
        Err(ParseCoordError::Unexpected(s[2]))
    } else if !('a' <= s[0] <= 'h') {
        Err(ParseCoordError::InvalidX(s[0]))
    } else if !('1' <= s[1] <= '8') {
        Err(ParseCoordError::InvalidY(s[1]))
    } else {
        Ok(square(s[0] as int - 'a' as int, 7 - (s[1] as int - '1' as int)))
    }
}

/// The squares `s + k * d` for `k` from 1 to `n - 1`, in that order.
pub open spec fn steps_between(s: Coord, d: Vector, n: int) -> Seq<Coord> {
    Seq::new((n - 1) as nat, |k: int| square(s.x + d.x * (k + 1), s.y + d.y * (k + 1)))
}

/// The squares from `k` steps of `d` up to, not including, the `n`-th.
proof fn lemma_prefix_until_steps(s: Coord, d: Vector, o: Coord, n: int, k: int)
    requires
        s.wf(),
        o.wf(),
        is_unit_direction(d),
        1 <= n <= 7,
        o == square(s.x + d.x * n, s.y + d.y * n),
        0 <= k <= n,
        on_board(s.x + d.x * n, s.y + d.y * n),
    ensures
        prefix_until(ray(s, d, k), o) == Seq::new(
            (n - k) as nat,
            |j: int| square(s.x + d.x * (k + j), s.y + d.y * (k + j)),
        ),
    decreases n - k,
{
    let x = s.x + d.x * k;
    let y = s.y + d.y * k;
    assert(on_board(x, y)) by (nonlinear_arith)
        requires
            x == s.x + d.x * k,
            y == s.y + d.y * k,
            0 <= s.x < 8,
            0 <= s.y < 8,
            on_board(s.x + d.x * n, s.y + d.y * n),
            -1 <= d.x <= 1,
            -1 <= d.y <= 1,
            0 <= k <= n,
    ;
    if k == n {
        assert(ray(s, d, k)[0] == o);
        assert(prefix_until(ray(s, d, k), o) =~= Seq::<Coord>::empty());
    } else {
        assert(square(x, y) != o) by {
            if d.x != 0 {
                assert(square(x, y).x != o.x) by (nonlinear_arith)
                    requires
                        x == s.x + d.x * k,
                        o.x == s.x + d.x * n,
                        d.x == 1 || d.x == -1,
                        k < n,
                        0 <= x < 8,
                        square(x, y).x == x,
                ;
            } else {
                assert(square(x, y).y != o.y) by (nonlinear_arith)
                    requires
                        y == s.y + d.y * k,
                        o.y == s.y + d.y * n,
                        d.y == 1 || d.y == -1,
                        k < n,
                        0 <= y < 8,
                        square(x, y).y == y,
                ;
            }
        }
        lemma_prefix_until_steps(s, d, o, n, k + 1);
        let r = ray(s, d, k);
        assert(r == seq![square(x, y)] + ray(s, d, k + 1));
        assert(r[0] == square(x, y));
        assert(r.drop_first() =~= ray(s, d, k + 1));
        assert(prefix_until(r, o) == seq![square(x, y)] + prefix_until(ray(s, d, k + 1), o));
        let rest = prefix_until(ray(s, d, k + 1), o);
        assert forall|j: int| 0 <= j < rest.len() implies #[trigger] rest[j] == square(
            s.x + d.x * (k + (j + 1)),
            s.y + d.y * (k + (j + 1)),
        ) by {
            assert(k + 1 + j == k + (j + 1));
        }
        assert(prefix_until(ray(s, d, k), o) =~= Seq::new(
            (n - k) as nat,
            |j: int| square(s.x + d.x * (k + j), s.y + d.y * (k + j)),
        ));
    }
}

/// When `o` lies from `s` in the direction `d`, it is `n` steps of `d` away
/// for some `n` from 1 to 7, and the squares strictly between are `s + k * d`
/// for `k` from 1 to `n - 1`, in that order: what `Coord::is_aligned` gives
/// for that direction. A square is never aligned with itself.
pub proof fn lemma_aligned_squares(s: Coord, o: Coord, d: Vector)
    requires
        s.wf(),
        o.wf(),
        is_unit_direction(d),
    ensures
        !aligned_spec(d, s.minus_spec(s)),
        aligned_spec(d, o.minus_spec(s)) ==> exists|n: int|
            1 <= n <= 7 && o == square(s.x + d.x * n, s.y + d.y * n) && skip_one(prefix_until(ray(s, d, 0), o))
                == #[trigger] steps_between(s, d, n),
{
    if aligned_spec(d, o.minus_spec(s)) {
        let dx = o.x - s.x;
        let dy = o.y - s.y;
        assert(o.minus_spec(s).x == dx && o.minus_spec(s).y == dy);
        let n: int = if d.x != 0 {
            dx * d.x
        } else {
            dy * d.y
        };
        assert(1 <= n <= 7 && dx == d.x * n && dy == d.y * n) by (nonlinear_arith)
            requires
                -1 <= d.x <= 1,
                -1 <= d.y <= 1,
                !(d.x == 0 && d.y == 0),
                -7 <= dx <= 7,
                -7 <= dy <= 7,
                sign(dx) == d.x,
                sign(dy) == d.y,
                dx * d.y == d.x * dy,
                n == if d.x != 0 {
                    dx * d.x
                } else {
                    dy * d.y
                },
        ;
        assert(o == square(s.x + d.x * n, s.y + d.y * n));
        lemma_prefix_until_steps(s, d, o, n, 0);
        let full = prefix_until(ray(s, d, 0), o);
        assert(skip_one(full) =~= steps_between(s, d, n));
    }
}

/// Reading the name of a square gives back the square.
pub proof fn lemma_coord_text_round_trip(c: Coord)
    requires
        c.wf(),
    ensures
        parse_coord_spec(coord_text(c)) == Ok::<Coord, ParseCoordError>(c),
{
    let t = coord_text(c);
    assert(t[0] as int == c.x + 97);
    assert(t[1] as int == 56 - c.y);
}

/// `String::push`: the string afterwards holds its old characters followed
/// by `c`.
#[verifier::external_body]
pub(crate) fn push_char(s: &mut String, c: char)
    ensures
        final(s)@ == old(s)@.push(c),
{
    s.push(c);
}

fn take_until(v: &Vec<Coord>, end: Coord) -> (r: Vec<Coord>)
    ensures
        r@ == prefix_until(v@, end),
{
    let mut r: Vec<Coord> = Vec::new();
    let mut i: usize = 0;
    assert(v@.skip(0) =~= v@);
    while i < v.len()
        invariant
            0 <= i <= v@.len(),
            r@ + prefix_until(v@.skip(i as int), end) == prefix_until(v@, end),
        decreases v@.len() - i,
    {
        proof {
            assert(v@.skip(i as int).drop_first() =~= v@.skip(i + 1));
        }
        if v[i] == end {
            proof {
                assert(prefix_until(v@.skip(i as int), end) =~= Seq::empty());
                assert(r@ =~= r@ + Seq::<Coord>::empty());
            }
            return r;
        }
        proof {
            assert(r@.push(v@[i as int]) + prefix_until(v@.skip(i + 1), end) =~= r@ + prefix_until(v@.skip(i as int), end));
        }
        r.push(v[i]);
        i = i + 1;
    }
    proof {
        assert(v@.skip(i as int) =~= Seq::empty());
        assert(r@ =~= r@ + prefix_until(v@.skip(i as int), end));
    }
    r
}

fn take_through(v: &Vec<Coord>, end: Coord) -> (r: Vec<Coord>)
    ensures
        r@ == prefix_through(v@, end),
{
    let mut r: Vec<Coord> = Vec::new();
    let mut i: usize = 0;
    assert(v@.skip(0) =~= v@);
    while i < v.len()
        invariant
            0 <= i <= v@.len(),
            r@ + prefix_through(v@.skip(i as int), end) == prefix_through(v@, end),
        decreases v@.len() - i,
    {
        proof {
            assert(v@.skip(i as int).drop_first() =~= v@.skip(i + 1));
        }
        if v[i] == end {
            proof {
                assert(prefix_through(v@.skip(i as int), end) =~= seq![v@[i as int]]);
            }
            r.push(v[i]);
            return r;
        }
        proof {
            assert(r@.push(v@[i as int]) + prefix_through(v@.skip(i + 1), end) =~= r@ + prefix_through(v@.skip(i as int), end));
        }
        r.push(v[i]);
        i = i + 1;
    }
    proof {
        assert(v@.skip(i as int) =~= Seq::empty());
        assert(r@ =~= r@ + prefix_through(v@.skip(i as int), end));
    }
    r
}

fn drop_first(v: &Vec<Coord>) -> (r: Vec<Coord>)
    ensures
        r@ == skip_one(v@),
{
    let mut r: Vec<Coord> = Vec::new();
    if v.len() == 0 {
        return r;
    }
    let mut i: usize = 1;
    while i < v.len()
        invariant
            1 <= i <= v@.len(),
            r@ == v@.subrange(1, i as int),
        decreases v@.len() - i,
    {
        proof {
            assert(v@.subrange(1, i + 1) =~= v@.subrange(1, i as int).push(v@[i as int]));
        }
        r.push(v[i]);
        i = i + 1;
    }
    proof {
        assert(v@.drop_first() =~= v@.subrange(1, i as int));
    }
    r
}

/// The eight knight jumps.
pub open spec fn knight_moves_spec() -> Seq<Vector> {
    seq![
        Vector { x: -1i8, y: -2i8 },
        Vector { x: 1, y: -2i8 },
        Vector { x: -1i8, y: 2 },
        Vector { x: 1, y: 2 },
        Vector { x: -2i8, y: -1i8 },
        Vector { x: 2, y: -1i8 },
        Vector { x: -2i8, y: 1 },
        Vector { x: 2, y: 1 },
    ]
}

/// The eight king steps, which are also the eight queen directions.
pub open spec fn king_moves_spec() -> Seq<Vector> {
    seq![
        Vector { x: -1i8, y: -1i8 },
        Vector { x: 0, y: -1i8 },
        Vector { x: 1, y: -1i8 },
        Vector { x: -1i8, y: 0 },
        Vector { x: 1, y: 0 },
        Vector { x: -1i8, y: 1 },
        Vector { x: 0, y: 1 },
        Vector { x: 1, y: 1 },
    ]
}

/// The four straight directions.
pub open spec fn rook_directions_spec() -> Seq<Vector> {
    seq![
        Vector { x: -1i8, y: 0 },
        Vector { x: 1, y: 0 },
        Vector { x: 0, y: -1i8 },
        Vector { x: 0, y: 1 },
    ]
}

/// The four diagonal directions.
pub open spec fn bishop_directions_spec() -> Seq<Vector> {
    seq![
        Vector { x: -1i8, y: -1i8 },
        Vector { x: 1, y: -1i8 },
        Vector { x: -1i8, y: 1 },
        Vector { x: 1, y: 1 },
    ]
}

/// The unit vector (signs of both components).
pub open spec fn unit_spec(v: Vector) -> Vector {
    Vector { x: sign(v.x as int) as i8, y: sign(v.y as int) as i8 }
}

/// Two vectors point the same way: same signs and parallel.
pub open spec fn aligned_spec(a: Vector, b: Vector) -> bool {
    unit_spec(a) == unit_spec(b) && a.x * b.y == b.x * a.y
}

/// A displacement of one king step.
pub open spec fn king_step(v: Vector) -> bool {
    -1 <= v.x <= 1 && -1 <= v.y <= 1 && !(v.x == 0 && v.y == 0)
}

/// A displacement of one knight jump.
pub open spec fn knight_jump(v: Vector) -> bool {
    (abs_int(v.x as int) == 1 && abs_int(v.y as int) == 2) || (abs_int(v.x as int) == 2 && abs_int(
        v.y as int,
    ) == 1)
}

/// A displacement by which a pawn of `color` captures.
pub open spec fn pawn_attack_step(v: Vector, color: Color) -> bool {
    abs_int(v.x as int) == 1 && v.y == pawn_dir(color)
}

impl Vector {
    pub fn zero() -> (r: Vector)
        ensures
            r == (Vector { x: 0, y: 0 }),
    {
        Vector { x: 0, y: 0 }
    }

    pub fn knight_moves() -> (r: [Vector; 8])
        ensures
            r@ == knight_moves_spec(),
    {
        let r = [
            Vector { x: -1i8, y: -2i8 },
            Vector { x: 1, y: -2i8 },
            Vector { x: -1i8, y: 2 },
            Vector { x: 1, y: 2 },
            Vector { x: -2i8, y: -1i8 },
            Vector { x: 2, y: -1i8 },
            Vector { x: -2i8, y: 1 },
            Vector { x: 2, y: 1 },
        ];
        assert(r@ =~= knight_moves_spec());
        r
    }

    pub fn king_moves() -> (r: [Vector; 8])
        ensures
            r@ == king_moves_spec(),
    {
        let r = [
            Vector { x: -1i8, y: -1i8 },
            Vector { x: 0, y: -1i8 },
            Vector { x: 1, y: -1i8 },
            Vector { x: -1i8, y: 0 },
            Vector { x: 1, y: 0 },
            Vector { x: -1i8, y: 1 },
            Vector { x: 0, y: 1 },
            Vector { x: 1, y: 1 },
        ];
        assert(r@ =~= king_moves_spec());
        r
    }

    pub fn rook_directions() -> (r: [Vector; 4])
        ensures
            r@ == rook_directions_spec(),
    {
        let r = [
            Vector { x: -1i8, y: 0 },
            Vector { x: 1, y: 0 },
            Vector { x: 0, y: -1i8 },
            Vector { x: 0, y: 1 },
        ];
        assert(r@ =~= rook_directions_spec());
        r
    }

    pub fn bishop_directions() -> (r: [Vector; 4])
        ensures
            r@ == bishop_directions_spec(),
    {
        let r = [
            Vector { x: -1i8, y: -1i8 },
            Vector { x: 1, y: -1i8 },
            Vector { x: -1i8, y: 1 },
            Vector { x: 1, y: 1 },
        ];
        assert(r@ =~= bishop_directions_spec());
        r
    }

    /// The queen moves along the eight king directions.
    pub fn queen_directions() -> (r: [Vector; 8])
        ensures
            r@ == king_moves_spec(),
    {
        Vector::king_moves()
    }

    /// One square forward for a pawn of `color`.
    pub fn pawn_single_move(color: Color) -> (r: Vector)
        ensures
            r == (Vector { x: 0, y: pawn_dir(color) as i8 }),
    {
        Vector { x: 0, y: pawn_direction(color) }
    }

    /// Two squares forward for a pawn of `color`.
    pub fn pawn_double_move(color: Color) -> (r: Vector)
        ensures
            r == (Vector { x: 0, y: (2 * pawn_dir(color)) as i8 }),
    {
        Vector::pawn_single_move(color).scaled(2)
    }

    /// The two diagonal captures of a pawn of `color`.
    pub fn pawn_attacks(color: Color) -> (r: [Vector; 2])
        ensures
            r@ == seq![
                Vector { x: -1i8, y: pawn_dir(color) as i8 },
                Vector { x: 1, y: pawn_dir(color) as i8 },
            ],
    {
        let d = pawn_direction(color);
        let r = [Vector { x: -1i8, y: d }, Vector { x: 1, y: d }];
        assert(r@ =~= seq![
            Vector { x: -1i8, y: pawn_dir(color) as i8 },
            Vector { x: 1, y: pawn_dir(color) as i8 },
        ]);
        r
    }

    /// Whether both vectors point the same way.
    pub fn is_aligned(self, other: Vector) -> (r: bool)
        requires
            i8::MIN <= self.x * other.y <= i8::MAX,
            i8::MIN <= other.x * self.y <= i8::MAX,
        ensures
            r == aligned_spec(self, other),
    {
        let a = self.as_unit();
        let b = other.as_unit();
        a.x == b.x && a.y == b.y && mul_i8(self.x, other.y) == mul_i8(other.x, self.y)
    }

    /// Whether this is one king step.
    pub fn is_king_move(self) -> (r: bool)
        ensures
            r == king_step(self),
    {
        -1 <= self.x && self.x <= 1 && -1 <= self.y && self.y <= 1 && !(self.x == 0 && self.y == 0)
    }

    /// Whether this is one knight jump.
    pub fn is_knight_move(self) -> (r: bool)
        ensures
            r == knight_jump(self),
    {
        let x = abs_i8(self.x);
        let y = abs_i8(self.y);
        (x == 1 && y == 2) || (x == 2 && y == 1)
    }

    /// Whether a pawn of `color` captures along this vector.
    pub fn is_pawn_attack(self, color: Color) -> (r: bool)
        ensures
            r == pawn_attack_step(self, color),
    {
        abs_i8(self.x) == 1 && self.y == pawn_direction(color)
    }

    /// The signs of both components.
    pub fn as_unit(self) -> (r: Vector)
        ensures
            r == unit_spec(self),
    {
        Vector { x: signum_i8(self.x), y: signum_i8(self.y) }
    }

    /// The opposite vector.
    pub fn negated(self) -> (r: Vector)
        requires
            self.x > -128,
            self.y > -128,
        ensures
            r.x == -self.x,
            r.y == -self.y,
    {
        Vector { x: -self.x, y: -self.y }
    }

    /// Component-wise sum.
    pub fn plus(self, rhs: Vector) -> (r: Vector)
        requires
            -128 <= self.x + rhs.x <= 127,
            -128 <= self.y + rhs.y <= 127,
        ensures
            r.x == self.x + rhs.x,
            r.y == self.y + rhs.y,
    {
        Vector { x: self.x + rhs.x, y: self.y + rhs.y }
    }

    /// Component-wise difference.
    pub fn minus(self, rhs: Vector) -> (r: Vector)
        requires
            -128 <= self.x - rhs.x <= 127,
            -128 <= self.y - rhs.y <= 127,
        ensures
            r.x == self.x - rhs.x,
            r.y == self.y - rhs.y,
    {
        Vector { x: self.x - rhs.x, y: self.y - rhs.y }
    }

    /// Both components multiplied by `rhs`.
    pub fn scaled(self, rhs: i8) -> (r: Vector)
        requires
            -128 <= self.x * rhs <= 127,
            -128 <= self.y * rhs <= 127,
        ensures
            r.x == self.x * rhs,
            r.y == self.y * rhs,
    {
        Vector { x: self.x * rhs, y: self.y * rhs }
    }
}

fn abs_i8(a: i8) -> (r: u8)
    ensures
        r == abs_int(a as int),
{
    if a < 0 {
        (0i16 - a as i16) as u8
    } else {
        a as u8
    }
}

fn mul_i8(a: i8, b: i8) -> (r: i32)
    ensures
        r == a * b,
{
    assert(-16384 <= (a as int) * (b as int) <= 16384) by (nonlinear_arith)
        requires
            -128 <= a <= 127,
            -128 <= b <= 127,
    ;
    (a as i32) * (b as i32)
}

fn signum_i8(a: i8) -> (r: i8)
    ensures
        r == sign(a as int),
{
    if a > 0 {
        1
    } else if a < 0 {
        -1
    } else {
        0
    }
}

/// The direction of pawn moves along y: -1 for white, 1 for black.
pub fn pawn_direction(color: Color) -> (r: i8)
    ensures
        r == pawn_dir(color),
{
    match color {
        Color::White => -1,
        Color::Black => 1,
    }
}

/// Row of a side's first rank.
pub fn home_rank(color: Color) -> (r: u8)
    ensures
        r == home_rank_of(color),
{
    match color {
        Color::White => 7,
        Color::Black => 0,
    }
}

/// Row on which a side's pawns start.
pub fn pawn_home_rank(color: Color) -> (r: u8)
    ensures
        r == pawn_home_rank_of(color),
{
    match color {
        Color::White => 6,
        Color::Black => 1,
    }
}

/// Row on which a side's pawns promote.
pub fn pawn_promotion_rank(color: Color) -> (r: u8)
    ensures
        r == promotion_rank_of(color),
{
    match color {
        Color::White => 0,
        Color::Black => 7,
    }
}

} // verus!
