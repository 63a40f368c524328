//! Long algebraic notation: moves written as origin square, destination
//! square and an optional promotion letter, such as `e2e4` or `e7e8q`.
use vstd::prelude::*;
use crate::board::{move_applicable, pawn_attacker_exists, Board, Move, Moveable, PieceIndex, SimpleMove};
use crate::castling_right::CastlingRight;
use crate::color::Color;
use crate::coord::{
    coord_text, home_rank_of, parse_coord_spec, pawn_dir, push_char, square, Coord, ParseCoordError,
};
use crate::piece::{kind_of_letter, lower_letter, ColoredPieceKind, InvalidFenPiece, Piece, PieceKind};
use crate::rules::{
    apply_slots, castle_king_file, castle_legal, castle_move, castle_rook_file, dead_position,
    en_passant_after, index_at,
    king_apart, king_slot, legal, lemma_index_at, occ, occupied, on_rank_path, pawn_attacker,
    pawn_attacks, pawn_front, piece_at, plain_legal, plain_move, Slots,
};

verus! {

/// Why a text is not a move in long algebraic notation.
#[derive(Debug, Clone, Copy, PartialEq, Eq, Hash, Structural)]
pub enum ParseLanError {
    InvalidChar,
    ParseCoordError(ParseCoordError),
    InvalidFenPiece(InvalidFenPiece),
    Unexpected(char),
}

/// A move in long algebraic notation.
#[derive(Debug, Clone, Copy, PartialEq, Eq, Hash, Structural)]
pub struct Lan {
    pub origin: Coord,
    pub destination: Coord,
    pub promotion: Option<PieceKind>,
}

impl Lan {
    /// Both squares are on the board.
    pub open spec fn wf(self) -> bool {
        self.origin.wf() && self.destination.wf()
    }
}

/// Number of bytes of a character in UTF-8.
pub open spec fn utf8_len(c: char) -> int {
    if (c as u32) < 0x80 {
        1
    } else if (c as u32) < 0x800 {
        2
    } else if (c as u32) < 0x10000 {
        3
    } else {
        4
    }
}

/// Number of UTF-8 bytes of the first `n` characters.
pub open spec fn bytes_before(s: Seq<char>, n: int) -> int
    decreases n,
{
    if n <= 0 {
        0
    } else {
        bytes_before(s, n - 1) + utf8_len(s[n - 1])
    }
}

/// The number of characters, counting from the `n`-th, that fill exactly
/// the first `k` bytes, if byte `k` falls between characters.
pub open spec fn boundary_from(s: Seq<char>, k: int, n: int) -> Option<int>
    decreases s.len() + 1 - n,
{
    if n < 0 || n > s.len() {
        None
    } else if bytes_before(s, n) == k {
        Some(n)
    } else if bytes_before(s, n) > k {
        None
    } else {
        boundary_from(s, k, n + 1)
    }
}

/// The number of characters that fill exactly the first `k` bytes of the
/// text, if byte `k` falls between characters.
pub open spec fn boundary(s: Seq<char>, k: int) -> Option<int> {
    boundary_from(s, k, 0)
}

/// What reading a move in long algebraic notation gives: the first two
/// bytes name the origin, the next two the destination, then at most one
/// promotion letter may follow.
pub open spec fn parse_lan(s: Seq<char>) -> Result<Lan, ParseLanError> {
    match boundary(s, 2) {
        None => Err(ParseLanError::InvalidChar),
        Some(a) => match parse_coord_spec(s.subrange(0, a)) {
            Err(e) => Err(ParseLanError::ParseCoordError(e)),
            Ok(origin) => match boundary(s, 4) {
                None => Err(ParseLanError::InvalidChar),
                Some(b) => match parse_coord_spec(s.subrange(a, b)) {
                    Err(e) => Err(ParseLanError::ParseCoordError(e)),
                    Ok(destination) => if s.len() == b {
                        Ok(Lan { origin, destination, promotion: None })
                    } else {
                        match kind_of_letter(s[b]) {
                            None => Err(ParseLanError::InvalidFenPiece(InvalidFenPiece(s[b]))),
                            Some(k) => if s.len() > b + 1 {
                                Err(ParseLanError::Unexpected(s[b + 1]))
                            } else {
                                Ok(Lan { origin, destination, promotion: Some(k) })
                            },
                        }
                    },
                },
            },
        },
    }
}

/// The text of a move: both square names, then the promotion letter in lower case.
pub open spec fn lan_text(l: Lan) -> Seq<char> {
    coord_text(l.origin) + coord_text(l.destination) + match l.promotion {
        Some(k) => seq![lower_letter(k)],
        None => Seq::<char>::empty(),
    }
}

/// Number of UTF-8 bytes of a character.
fn char_bytes(c: char) -> (r: usize)
    ensures
        r == utf8_len(c),
{
    let v = c as u32;
    if v < 0x80 {
        1
    } else if v < 0x800 {
        2
    } else if v < 0x10000 {
        3
    } else {
        4
    }
}

proof fn lemma_bytes_grow(s: Seq<char>, n: int)
    requires
        0 <= n,
    ensures
        bytes_before(s, n) >= n,
    decreases n,
{
    if n > 0 {
        lemma_bytes_grow(s, n - 1);
    }
}

/// The number of characters that fill exactly the first `k` bytes of `s`.
fn byte_boundary(s: &str, k: usize) -> (r: Option<usize>)
    requires
        k <= 8,
    ensures
        r matches Some(n) ==> boundary(s@, k as int) == Some(n as int),
        r is None ==> boundary(s@, k as int) is None,
{
    let n = s.unicode_len();
    let mut i: usize = 0;
    let mut bytes: usize = 0;
    loop
        invariant
            n == s@.len(),
            0 <= i <= n,
            bytes == bytes_before(s@, i as int),
            bytes <= k,
            k <= 8,
            boundary(s@, k as int) == boundary_from(s@, k as int, i as int),
        decreases n - i,
    {
        if bytes == k {
            return Some(i);
        }
        if i == n {
            return None;
        }
        let c = s.get_char(i);
        let b = char_bytes(c);
        if bytes + b > k {
            proof {
                assert(boundary_from(s@, k as int, i + 1) is None) by {
                    reveal_with_fuel(boundary_from, 2);
                }
            }
            return None;
        }
        bytes = bytes + b;
        i = i + 1;
    }
}

proof fn lemma_ascii_boundary(s: Seq<char>, k: int)
    requires
        0 <= k <= s.len(),
        forall|j: int| 0 <= j < s.len() ==> (#[trigger] s[j] as u32) < 0x80,
    ensures
        boundary(s, k) == Some(k),
{
    assert forall|n: int| 0 <= n <= s.len() implies #[trigger] bytes_before(s, n) == n by {
        lemma_ascii_bytes(s, n);
    }
    lemma_boundary_scan(s, k, 0);
}

proof fn lemma_ascii_bytes(s: Seq<char>, n: int)
    requires
        0 <= n <= s.len(),
        forall|j: int| 0 <= j < s.len() ==> (#[trigger] s[j] as u32) < 0x80,
    ensures
        bytes_before(s, n) == n,
    decreases n,
{
    if n > 0 {
        lemma_ascii_bytes(s, n - 1);
        assert((s[n - 1] as u32) < 0x80);
    }
}

proof fn lemma_boundary_scan(s: Seq<char>, k: int, n: int)
    requires
        0 <= n <= k <= s.len(),
        forall|m: int| 0 <= m <= s.len() ==> #[trigger] bytes_before(s, m) == m,
    ensures
        boundary_from(s, k, n) == Some(k),
    decreases k - n,
{
    assert(bytes_before(s, n) == n);
    if n < k {
        lemma_boundary_scan(s, k, n + 1);
    }
}

impl Lan {
    /// Reads a move such as `e2e4` or `e7e8q`.
    pub fn parse(s: &str) -> (r: Result<Lan, ParseLanError>)
        ensures
            r == parse_lan(s@),
            r matches Ok(l) ==> l.wf(),
    {
        let a = match byte_boundary(s, 2) {
            Some(a) => a,
            None => {
                return Err(ParseLanError::InvalidChar);
            },
        };
        proof {
            lemma_boundary_props(s@, 2, 0);
        }
        let origin = match Coord::parse(s.substring_char(0, a)) {
            Ok(c) => c,
            Err(e) => {
                return Err(ParseLanError::ParseCoordError(e));
            },
        };
        let b = match byte_boundary(s, 4) {
            Some(b) => b,
            None => {
                return Err(ParseLanError::InvalidChar);
            },
        };
        proof {
            lemma_boundary_props(s@, 4, 0);
            if b < a {
                lemma_bytes_monotone(s@, a as int, b as int);
            }
        }
        let destination = match Coord::parse(s.substring_char(a, b)) {
            Ok(c) => c,
            Err(e) => {
                return Err(ParseLanError::ParseCoordError(e));
            },
        };
        let n = s.unicode_len();
        if n == b {
            return Ok(Lan { origin, destination, promotion: None });
        }
        let k = match PieceKind::from_fen(s.get_char(b)) {
            Ok(k) => k,
            Err(e) => {
                return Err(ParseLanError::InvalidFenPiece(e));
            },
        };
        if n > b + 1 {
            return Err(ParseLanError::Unexpected(s.get_char(b + 1)));
        }
        Ok(Lan { origin, destination, promotion: Some(k) })
    }

    /// The move's text, such as `e2e4` or `e7e8q`.
    pub fn to_text(self) -> (s: String)
        requires
            self.wf(),
        ensures
            s@ == lan_text(self),
    {
        let mut s = String::new();
        push_char(&mut s, (self.origin.x + 97u8) as char);
        push_char(&mut s, (8u8 - self.origin.y + 48u8) as char);
        push_char(&mut s, (self.destination.x + 97u8) as char);
        push_char(&mut s, (8u8 - self.destination.y + 48u8) as char);
        match self.promotion {
            Some(k) => push_char(&mut s, k.lowercase()),
            None => {},
        }
        proof {
            assert(s@ =~= lan_text(self));
        }
        s
    }
}

proof fn lemma_boundary_props(s: Seq<char>, k: int, n: int)
    requires
        0 <= n,
    ensures
        boundary_from(s, k, n) matches Some(m) ==> n <= m <= s.len() && bytes_before(s, m) == k,
    decreases s.len() + 1 - n,
{
    if n <= s.len() && bytes_before(s, n) < k {
        lemma_boundary_props(s, k, n + 1);
    }
}

/// Byte counts grow with the number of characters.
proof fn lemma_bytes_monotone(s: Seq<char>, n: int, m: int)
    requires
        0 <= m <= n,
    ensures
        bytes_before(s, m) <= bytes_before(s, n),
        bytes_before(s, n) == bytes_before(s, m) ==> n == m,
    decreases n - m,
{
    if m < n {
        lemma_bytes_monotone(s, n - 1, m);
    }
}

/// Reading the text of a move gives back the move.
pub proof fn lemma_lan_text_round_trip(l: Lan)
    requires
        l.wf(),
    ensures
        parse_lan(lan_text(l)) == Ok::<Lan, ParseLanError>(l),
{
    let t = lan_text(l);
    let o = coord_text(l.origin);
    let d = coord_text(l.destination);
    assert(forall|j: int| 0 <= j < t.len() ==> (#[trigger] t[j] as u32) < 0x80);
    lemma_ascii_boundary(t, 2);
    lemma_ascii_boundary(t, 4);
    assert(t.subrange(0, 2) =~= o);
    assert(t.subrange(2, 4) =~= d);
    crate::coord::lemma_coord_text_round_trip(l.origin);
    crate::coord::lemma_coord_text_round_trip(l.destination);
    if let Some(k) = l.promotion {
        crate::piece::lemma_letter_round_trip(k);
    }
}


/// Slot `j` holds a rook of `c` on the row of `origin`, beyond it toward the
/// h-file (`kingside`) or toward the a-file.
pub open spec fn side_rook(s: Slots, c: Color, origin: Coord, kingside: bool, j: int) -> bool {
    &&& 0 <= j < 32
    &&& s[j] is Some
    &&& s[j]->Some_0.piece == (ColoredPieceKind { color: c, piece: PieceKind::Rook })
    &&& s[j]->Some_0.position.y == origin.y
    &&& if kingside {
        origin.x < s[j]->Some_0.position.x
    } else {
        s[j]->Some_0.position.x < origin.x
    }
}

/// The first slot from `j` on that holds such a rook.
pub open spec fn first_side_rook(s: Slots, c: Color, origin: Coord, kingside: bool, j: int) -> Option<int>
    decreases 32 - j,
{
    if j < 0 || j >= 32 {
        None
    } else if side_rook(s, c, origin, kingside, j) {
        Some(j)
    } else {
        first_side_rook(s, c, origin, kingside, j + 1)
    }
}

/// The slot a move to `d` by a piece of `c` captures: the pawn in front of the
/// en passant target when `d` is that target, otherwise the piece on `d`.
pub open spec fn lan_capture(b: Board, c: Color, d: Coord) -> Option<int> {
    if b.en_passant_target == Some(d) {
        index_at(b.pieces@, pawn_front(d, c.other()))
    } else {
        index_at(b.pieces@, d)
    }
}

/// The castling rights after piece `p` moves and takes slot `cap`: a king
/// gives up both, a rook on its home rank its own file, and a rook taken on
/// its home rank its file.
pub open spec fn lan_rights(b: Board, p: Piece, cap: Option<int>) -> CastlingRight {
    let c = p.piece.color;
    let base = if p.piece.piece == PieceKind::King {
        b.castling_right.cleared(c)
    } else if p.piece.piece == PieceKind::Rook && p.position.y == home_rank_of(c) {
        b.castling_right.removed(c, p.position.x as int)
    } else {
        b.castling_right
    };
    match cap {
        Some(ci) => base.after_capture(b.pieces@[ci]->Some_0),
        None => base,
    }
}

/// The move a text in long algebraic notation stands for. A piece moving onto
/// a rook of its own side castles with it ("king takes rook"); a king moving
/// two or more squares castles with the first rook of its side found on that
/// side; any other move goes to its destination and takes what `lan_capture` says.
pub open spec fn lan_move(b: Board, l: Lan) -> Move {
    let s = b.pieces@;
    let i = index_at(s, l.origin)->Some_0;
    let p = s[i]->Some_0;
    let c = p.piece.color;
    let row = l.origin.y as int;
    if piece_at(s, l.destination) == Some(ColoredPieceKind { color: c, piece: PieceKind::Rook }) {
        let r = index_at(s, l.destination)->Some_0;
        let kingside = l.origin.x < l.destination.x;
        Move {
            movement: SimpleMove {
                index: PieceIndex(i as u8),
                destination: square(if kingside { 6 } else { 2 }, row),
                capture: None,
            },
            castling_rook: Some(
                SimpleMove {
                    index: PieceIndex(r as u8),
                    destination: square(if kingside { 5 } else { 3 }, row),
                    capture: None,
                },
            ),
            promotion: l.promotion,
            en_passant_target: None,
            castling_right: b.castling_right.cleared(c),
        }
    } else if p.piece.piece == PieceKind::King && !king_apart(l.origin, l.destination) {
        let kingside = l.destination.x == 6;
        let r = first_side_rook(s, c, l.origin, kingside, 0)->Some_0;
        Move {
            movement: SimpleMove { index: PieceIndex(i as u8), destination: l.destination, capture: None },
            castling_rook: Some(
                SimpleMove {
                    index: PieceIndex(r as u8),
                    destination: square(if kingside { 5 } else { 3 }, row),
                    capture: None,
                },
            ),
            promotion: l.promotion,
            en_passant_target: None,
            castling_right: b.castling_right.cleared(c),
        }
    } else {
        let cap = lan_capture(b, c, l.destination);
        Move {
            movement: SimpleMove {
                index: PieceIndex(i as u8),
                destination: l.destination,
                capture: match cap {
                    Some(ci) => Some(PieceIndex(ci as u8)),
                    None => None,
                },
            },
            castling_rook: None,
            promotion: l.promotion,
            en_passant_target: en_passant_after(b, i, l.destination),
            castling_right: lan_rights(b, p, cap),
        }
    }
}

/// A text can be read as a move on the board: a piece stands on its origin;
/// "king takes rook" castling does not stay on one file; a king's castling
/// destination is the c- or g-file with a rook of its side on that side; and
/// a move onto the en passant target finds the pawn in front of it.
pub open spec fn lan_move_ok(b: Board, l: Lan) -> bool {
    let s = b.pieces@;
    let i = index_at(s, l.origin)->Some_0;
    let p = s[i]->Some_0;
    let c = p.piece.color;
    &&& l.wf()
    &&& occupied(s, l.origin)
    &&& if piece_at(s, l.destination) == Some(ColoredPieceKind { color: c, piece: PieceKind::Rook }) {
        l.origin.x != l.destination.x
    } else if p.piece.piece == PieceKind::King && !king_apart(l.origin, l.destination) {
        (l.destination.x == 2 || l.destination.x == 6) && first_side_rook(
            s,
            c,
            l.origin,
            l.destination.x == 6,
            0,
        ) is Some
    } else {
        b.en_passant_target == Some(l.destination) ==> 0 <= l.destination.y + pawn_dir(c.other()) < 8
            && piece_at(s, pawn_front(l.destination, c.other())) == Some(
            ColoredPieceKind { color: c.other(), piece: PieceKind::Pawn },
        )
    }
}

proof fn lemma_first_side_rook(s: Slots, c: Color, origin: Coord, kingside: bool, j: int)
    requires
        0 <= j,
    ensures
        first_side_rook(s, c, origin, kingside, j) matches Some(r) ==> j <= r && side_rook(
            s,
            c,
            origin,
            kingside,
            r,
        ),
    decreases 32 - j,
{
    if j < 32 && !side_rook(s, c, origin, kingside, j) {
        lemma_first_side_rook(s, c, origin, kingside, j + 1);
    }
}

impl Board {
    /// The first slot that holds a rook of `c` on the row of `origin`, beyond
    /// it toward the h-file (`kingside`) or toward the a-file.
    fn find_side_rook(&self, c: Color, origin: Coord, kingside: bool) -> (r: Option<usize>)
        requires
            self.wf(),
        ensures
            match r {
                Some(j) => first_side_rook(self.pieces@, c, origin, kingside, 0) == Some(j as int),
                None => first_side_rook(self.pieces@, c, origin, kingside, 0) is None,
            },
    {
        let mut j: usize = 0;
        while j < 32
            invariant
                0 <= j <= 32,
                self.wf(),
                first_side_rook(self.pieces@, c, origin, kingside, 0) == first_side_rook(
                    self.pieces@,
                    c,
                    origin,
                    kingside,
                    j as int,
                ),
            decreases 32 - j,
        {
            match self.pieces[j] {
                Some(p) => {
                    if p.piece.color == c && p.piece.piece == PieceKind::Rook && p.position.y == origin.y
                        && (if kingside {
                        origin.x < p.position.x
                    } else {
                        p.position.x < origin.x
                    }) {
                        return Some(j);
                    }
                },
                None => {},
            }
            j = j + 1;
        }
        None
    }
}

/// Whether two squares are a king step apart.
fn king_step_apart(a: Coord, b: Coord) -> (r: bool)
    requires
        a.wf(),
        b.wf(),
    ensures
        r == king_apart(a, b),
{
    let dx: i8 = b.x as i8 - a.x as i8;
    let dy: i8 = b.y as i8 - a.y as i8;
    -1 <= dx && dx <= 1 && -1 <= dy && dy <= 1 && !(dx == 0 && dy == 0)
}

impl Lan {
    /// The move this text stands for on the board, as `lan_move` says.
    pub fn as_move(self, board: &Board) -> (m: Move)
        requires
            board.wf(),
            lan_move_ok(*board, self),
        ensures
            m == lan_move(*board, self),
    {
        let (i, p) = board.piece_on(self.origin).unwrap();
        let c = p.piece.color;
        let row = self.origin.y;
        let on_destination = board.piece_on(self.destination);
        let takes_rook = match on_destination {
            Some((_, q)) => q.piece.color == c && q.piece.piece == PieceKind::Rook,
            None => false,
        };
        if takes_rook {
            let (r, _) = on_destination.unwrap();
            let kingside = self.origin.x < self.destination.x;
            let (king_file, rook_file): (u8, u8) = if kingside {
                (6, 5)
            } else {
                (2, 3)
            };
            return Move {
                movement: SimpleMove {
                    index: PieceIndex(i as u8),
                    destination: Coord::new(king_file, row),
                    capture: None,
                },
                castling_rook: Some(
                    SimpleMove {
                        index: PieceIndex(r as u8),
                        destination: Coord::new(rook_file, row),
                        capture: None,
                    },
                ),
                promotion: self.promotion,
                en_passant_target: None,
                castling_right: board.castling_right.to_cleared(c),
            };
        }
        if p.piece.piece == PieceKind::King && !king_step_apart(self.origin, self.destination) {
            let kingside = self.destination.x == 6;
            let r = board.find_side_rook(c, self.origin, kingside).unwrap();
            let rook_file: u8 = if kingside {
                5
            } else {
                3
            };
            return Move {
                movement: SimpleMove { index: PieceIndex(i as u8), destination: self.destination, capture: None },
                castling_rook: Some(
                    SimpleMove {
                        index: PieceIndex(r as u8),
                        destination: Coord::new(rook_file, row),
                        capture: None,
                    },
                ),
                promotion: self.promotion,
                en_passant_target: None,
                castling_right: board.castling_right.to_cleared(c),
            };
        }
        let d = self.destination;
        let capture: Option<usize> = if board.en_passant_target == Some(d) {
            let y: u8 = match c {
                Color::White => d.y + 1,
                Color::Black => d.y - 1,
            };
            let (ci, _) = board.piece_on(Coord::new(d.x, y)).unwrap();
            Some(ci)
        } else {
            match on_destination {
                Some((ci, _)) => Some(ci),
                None => None,
            }
        };
        let base = if p.piece.piece == PieceKind::King {
            board.castling_right.to_cleared(c)
        } else if p.piece.piece == PieceKind::Rook && self.origin.y == crate::coord::home_rank(c) {
            board.castling_right.to_removed(c, self.origin.x)
        } else {
            board.castling_right
        };
        let castling_right = match capture {
            Some(ci) => base.to_removed_for_rook_capture(board.pieces[ci].unwrap()),
            None => base,
        };
        let dir: i8 = match c {
            Color::White => -1,
            Color::Black => 1,
        };
        let en_passant_target = if p.piece.piece == PieceKind::Pawn && d.x == self.origin.x && d.y as i8
            - self.origin.y as i8 == 2 * dir {
            let mid = Coord::new(self.origin.x, (self.origin.y as i8 + dir) as u8);
            proof {
                assert(mid == pawn_front(p.position, c));
            }
            if pawn_attacker_exists(&board.pieces, mid, c.opposite()) {
                Some(mid)
            } else {
                None
            }
        } else {
            None
        };
        Move {
            movement: SimpleMove {
                index: PieceIndex(i as u8),
                destination: d,
                capture: match capture {
                    Some(ci) => Some(PieceIndex(ci as u8)),
                    None => None,
                },
            },
            castling_rook: None,
            promotion: self.promotion,
            en_passant_target,
            castling_right,
        }
    }
}


/// The slots a move names hold pieces: the moving piece and, when castling, the rook.
pub open spec fn move_pieces_present(b: Board, m: Move) -> bool {
    &&& m.movement.index.0 < 32
    &&& b.pieces@[m.movement.index.0 as int] is Some
    &&& (m.castling_rook matches Some(r) ==> r.index.0 < 32 && b.pieces@[r.index.0 as int] is Some)
}

/// The usual text of a move: from the moving piece's square to its destination.
pub open spec fn regular_lan(b: Board, m: Move) -> Lan {
    Lan {
        origin: b.pieces@[m.movement.index.0 as int]->Some_0.position,
        destination: m.movement.destination,
        promotion: m.promotion,
    }
}

/// For castling, the "king takes rook" text: from the king's square to the rook's.
pub open spec fn rook_lan(b: Board, m: Move) -> Option<Lan> {
    match m.castling_rook {
        Some(r) => Some(
            Lan {
                origin: b.pieces@[m.movement.index.0 as int]->Some_0.position,
                destination: b.pieces@[r.index.0 as int]->Some_0.position,
                promotion: m.promotion,
            },
        ),
        None => None,
    }
}

/// Castling from the standard king square (the e-file) with a rook in a
/// corner, which standard chess writes as a king move.
pub open spec fn standard_castling(b: Board, m: Move) -> bool {
    rook_lan(b, m) matches Some(c9) && regular_lan(b, m).origin.x == 4 && (c9.destination.x == 0
        || c9.destination.x == 7)
}

/// The text to send for a move: standard castling as a king move, other
/// castling as "king takes rook", any other move as itself.
pub open spec fn lan_of(b: Board, m: Move) -> Lan {
    if standard_castling(b, m) {
        regular_lan(b, m)
    } else {
        match rook_lan(b, m) {
            Some(c9) => c9,
            None => regular_lan(b, m),
        }
    }
}

/// The texts a move may be given by: the main one, and for castling a second one.
pub open spec fn lan_pair_of(b: Board, m: Move) -> (Lan, Option<Lan>) {
    let regular = regular_lan(b, m);
    match rook_lan(b, m) {
        Some(c9) => if standard_castling(b, m) {
            (regular, Some(c9))
        } else if king_apart(regular.origin, regular.destination) {
            (c9, None)
        } else {
            (c9, Some(regular))
        },
        None => (regular, None),
    }
}

/// The Chess960 text of a move: castling as "king takes rook".
pub open spec fn lan_chess960_of(b: Board, m: Move) -> Lan {
    match rook_lan(b, m) {
        Some(c9) => c9,
        None => regular_lan(b, m),
    }
}

impl Move {
    fn regular_and_rook_lan(self, board: &Board) -> (r: (Lan, Option<Lan>))
        requires
            board.wf(),
            move_pieces_present(*board, self),
        ensures
            r.0 == regular_lan(*board, self),
            r.1 == rook_lan(*board, self),
            r.0.origin.wf(),
            r.1 matches Some(l) ==> l.origin.wf() && l.destination.wf(),
    {
        let piece = board.pieces[self.movement.index.0 as usize].unwrap();
        let regular = Lan { origin: piece.position, destination: self.movement.destination, promotion: self.promotion };
        let rook = match self.castling_rook {
            Some(r) => Some(
                Lan {
                    origin: piece.position,
                    destination: board.pieces[r.index.0 as usize].unwrap().position,
                    promotion: self.promotion,
                },
            ),
            None => None,
        };
        (regular, rook)
    }

    /// The texts a move may be given by, as `lan_pair_of` says.
    pub fn as_lan_pair(self, board: &Board) -> (r: (Lan, Option<Lan>))
        requires
            board.wf(),
            move_pieces_present(*board, self),
            self.movement.destination.wf(),
        ensures
            r == lan_pair_of(*board, self),
    {
        let (regular, rook) = self.regular_and_rook_lan(board);
        match rook {
            Some(c9) => {
                if regular.origin.x == 4 && (c9.destination.x == 0 || c9.destination.x == 7) {
                    (regular, Some(c9))
                } else if king_step_apart(regular.origin, regular.destination) {
                    (c9, None)
                } else {
                    (c9, Some(regular))
                }
            },
            None => (regular, None),
        }
    }

    /// The texts a move may be given by, main one first.
    pub fn as_lan_iter(self, board: &Board) -> (r: Vec<Lan>)
        requires
            board.wf(),
            move_pieces_present(*board, self),
            self.movement.destination.wf(),
        ensures
            r@ == match lan_pair_of(*board, self) {
                (first, Some(second)) => seq![first, second],
                (first, None) => seq![first],
            },
    {
        let (first, second) = self.as_lan_pair(board);
        let mut r = Vec::new();
        r.push(first);
        match second {
            Some(l) => r.push(l),
            None => {},
        }
        proof {
            assert(r@ =~= match lan_pair_of(*board, self) {
                (first, Some(second)) => seq![first, second],
                (first, None) => seq![first],
            });
        }
        r
    }

    /// Whether the pieces the move names stand on the board, as
    /// `move_pieces_present` says; a move that `valid_moves` lists always
    /// passes.
    pub fn names_pieces_on(self, board: &Board) -> (r: bool)
        ensures
            r == move_pieces_present(*board, self),
    {
        let i = self.movement.index.0;
        if i >= 32 || board.pieces[i as usize].is_none() {
            return false;
        }
        match self.castling_rook {
            Some(rook) => rook.index.0 < 32 && board.pieces[rook.index.0 as usize].is_some(),
            None => true,
        }
    }

    /// The text to send for a move, as `lan_of` says.
    pub fn as_lan(self, board: &Board) -> (r: Lan)
        requires
            board.wf(),
            move_pieces_present(*board, self),
        ensures
            r == lan_of(*board, self),
    {
        let (regular, rook) = self.regular_and_rook_lan(board);
        match rook {
            Some(c9) => {
                if regular.origin.x == 4 && (c9.destination.x == 0 || c9.destination.x == 7) {
                    regular
                } else {
                    c9
                }
            },
            None => regular,
        }
    }

    /// The Chess960 text of a move, as `lan_chess960_of` says.
    pub fn as_lan_chess960(self, board: &Board) -> (r: Lan)
        requires
            board.wf(),
            move_pieces_present(*board, self),
        ensures
            r == lan_chess960_of(*board, self),
    {
        let (regular, rook) = self.regular_and_rook_lan(board);
        match rook {
            Some(c9) => c9,
            None => regular,
        }
    }
}


/// Where the move, not castling, lands on the en passant target, a pawn of the
/// side not to move stands in front of that target.
pub open spec fn en_passant_backed(b: Board, m: Move) -> bool {
    let t = m.movement.destination;
    let o = b.current_player.other();
    m.castling_rook is None && b.en_passant_target == Some(t) ==> piece_at(b.pieces@, pawn_front(t, o)) == Some(
        ColoredPieceKind { color: o, piece: PieceKind::Pawn },
    )
}

/// A move onto the en passant target that is not a pawn capturing there:
/// its text reads back as taking the pawn in front of the target.
pub open spec fn lands_on_en_passant_target(b: Board, m: Move) -> bool {
    let p = b.pieces@[m.movement.index.0 as int]->Some_0;
    &&& m.castling_rook is None
    &&& b.en_passant_target == Some(m.movement.destination)
    &&& !(p.piece.piece == PieceKind::Pawn && pawn_attacks(
        p.position,
        m.movement.destination,
        p.piece.color,
    ))
}

proof fn lemma_plain_round_trip(b: Board, i: int, d: Coord, promo: Option<PieceKind>)
    requires
        b.wf(),
        en_passant_backed(b, plain_move(b, i, d, promo)),
        plain_legal(b, i, d, promo),
        !lands_on_en_passant_target(b, plain_move(b, i, d, promo)),
    ensures
        move_pieces_present(b, plain_move(b, i, d, promo)),
        lan_move_ok(b, lan_of(b, plain_move(b, i, d, promo))),
        lan_move(b, lan_of(b, plain_move(b, i, d, promo))) == plain_move(b, i, d, promo),
{
    let s = b.pieces@;
    let m = plain_move(b, i, d, promo);
    let p = s[i]->Some_0;
    assert(occ(s, p.position, i));
    lemma_index_at(s, p.position, i);
    assert(m.movement.index.0 == i);
    let l = lan_of(b, m);
    assert(l == regular_lan(b, m));
    assert(l.origin == p.position);
    assert(index_at(s, l.origin) == Some(i));
    assert(piece_at(s, d) != Some(ColoredPieceKind { color: p.piece.color, piece: PieceKind::Rook }));
}

proof fn lemma_unique_first_side_rook(s: Slots, c: Color, o: Coord, kingside: bool, r: int, j: int)
    requires
        0 <= j <= r,
        side_rook(s, c, o, kingside, r),
        forall|k: int| #[trigger] side_rook(s, c, o, kingside, k) ==> k == r,
    ensures
        first_side_rook(s, c, o, kingside, j) == Some(r),
    decreases r - j,
{
    if j < r {
        lemma_unique_first_side_rook(s, c, o, kingside, r, j + 1);
    }
}

proof fn lemma_castle_round_trip(b: Board, x: int)
    requires
        b.wf(),
        castle_legal(b, x),
    ensures
        move_pieces_present(b, castle_move(b, x)),
        lan_move_ok(b, lan_of(b, castle_move(b, x))),
        lan_move(b, lan_of(b, castle_move(b, x))) == castle_move(b, x),
{
    let s = b.pieces@;
    let c = b.current_player;
    let home = home_rank_of(c);
    let ks = king_slot(c);
    let king = s[ks]->Some_0;
    let rook_sq = square(x, home);
    let r = index_at(s, rook_sq)->Some_0;
    assert(occ(s, rook_sq, r));
    assert(occ(s, king.position, ks));
    lemma_index_at(s, king.position, ks);
    lemma_index_at(s, rook_sq, r);
    let m = castle_move(b, x);
    assert(m.movement.index.0 == ks);
    assert(m.castling_rook->Some_0.index.0 == r);
    assert(s[r]->Some_0.position == rook_sq);
    assert(king.piece.color == c);
    let kx = king.position.x as int;
    let kd = castle_king_file(kx, x);
    assert(king.position == square(kx, home));
    if kx == 4 && (x == 0 || x == 7) {
        assert(standard_castling(b, m));
        assert(on_rank_path(kx, kd, kd));
        assert(square(kd, home) != rook_sq);
        assert(!occupied(s, square(kd, home)));
        let kingside = kd == 6;
        assert forall|j: int| #[trigger] side_rook(s, c, king.position, kingside, j) implies j == r by {
            let q = s[j]->Some_0.position;
            assert(q == square(q.x as int, home));
            if q.x as int != x {
                if x == 7 {
                    assert(on_rank_path(kx, kd, q.x as int));
                } else {
                    assert(on_rank_path(x, castle_rook_file(kx, x), q.x as int));
                }
                assert(occ(s, square(q.x as int, home), j));
            } else {
                assert(occ(s, rook_sq, j));
                lemma_index_at(s, rook_sq, j);
            }
        }
        lemma_unique_first_side_rook(s, c, king.position, kingside, r, 0);
    } else {
        assert(!standard_castling(b, m));
        assert(piece_at(s, rook_sq) == Some(ColoredPieceKind { color: c, piece: PieceKind::Rook }));
    }
}

/// Reading back the text `as_lan` gives for a legal move gives the move
/// itself, unless the move lands on the en passant target without capturing
/// there, or captures there with no pawn of the other side in front of it.
pub proof fn lemma_lan_round_trip(b: Board, m: Move)
    requires
        b.wf(),
        en_passant_backed(b, m),
        legal(b, m),
        !lands_on_en_passant_target(b, m),
    ensures
        move_pieces_present(b, m),
        lan_move_ok(b, lan_of(b, m)),
        lan_move(b, lan_of(b, m)) == m,
{
    if exists|i: int, d: Coord, promo: Option<PieceKind>|
        plain_legal(b, i, d, promo) && m == #[trigger] plain_move(b, i, d, promo) {
        let (i, d, promo) = choose|i: int, d: Coord, promo: Option<PieceKind>|
            plain_legal(b, i, d, promo) && m == #[trigger] plain_move(b, i, d, promo);
        lemma_plain_round_trip(b, i, d, promo);
    } else {
        let x = choose|x: int| castle_legal(b, x) && m == #[trigger] castle_move(b, x);
        lemma_castle_round_trip(b, x);
    }
}


/// Castling whose second text is the king's move to its destination square,
/// where that square holds no rook of the side and another rook of the side
/// comes first on that side: that text reads back as castling with it.
pub open spec fn ambiguous_second_text(b: Board, m: Move) -> bool {
    let s = b.pieces@;
    let regular = regular_lan(b, m);
    let c = s[m.movement.index.0 as int]->Some_0.piece.color;
    &&& m.castling_rook is Some
    &&& !standard_castling(b, m)
    &&& !king_apart(regular.origin, regular.destination)
    &&& piece_at(s, regular.destination) != Some(ColoredPieceKind { color: c, piece: PieceKind::Rook })
    &&& first_side_rook(s, c, regular.origin, regular.destination.x == 6, 0) != Some(
        m.castling_rook->Some_0.index.0 as int,
    )
}

proof fn lemma_castle_second_text(b: Board, x: int)
    requires
        b.wf(),
        castle_legal(b, x),
        !ambiguous_second_text(b, castle_move(b, x)),
    ensures
        lan_pair_of(b, castle_move(b, x)).1 matches Some(l) ==> lan_move_ok(b, l) && lan_move(b, l)
            == castle_move(b, x),
{
    let s = b.pieces@;
    let c = b.current_player;
    let home = home_rank_of(c);
    let ks = king_slot(c);
    let king = s[ks]->Some_0;
    let rook_sq = square(x, home);
    let r = index_at(s, rook_sq)->Some_0;
    assert(occ(s, rook_sq, r));
    assert(occ(s, king.position, ks));
    lemma_index_at(s, king.position, ks);
    lemma_index_at(s, rook_sq, r);
    let m = castle_move(b, x);
    assert(s[r]->Some_0.position == rook_sq);
    let kx = king.position.x as int;
    let kd = castle_king_file(kx, x);
    assert(king.position == square(kx, home));
    assert(piece_at(s, rook_sq) == Some(ColoredPieceKind { color: c, piece: PieceKind::Rook }));
    let regular = regular_lan(b, m);
    if !standard_castling(b, m) && !king_apart(regular.origin, regular.destination) {
        if kx != kd {
            assert(on_rank_path(kx, kd, kd));
            if piece_at(s, square(kd, home)) == Some(ColoredPieceKind { color: c, piece: PieceKind::Rook }) {
                assert(square(kd, home) == rook_sq);
            }
        } else {
            assert(square(kd, home) == king.position);
        }
    }
}

/// Reading back either text `as_lan_pair` gives for a legal move gives the
/// move itself, under the conditions of `lemma_lan_round_trip`, unless the
/// second text is ambiguous.
pub proof fn lemma_lan_pair_round_trip(b: Board, m: Move)
    requires
        b.wf(),
        en_passant_backed(b, m),
        legal(b, m),
        !lands_on_en_passant_target(b, m),
        !ambiguous_second_text(b, m),
    ensures
        lan_pair_of(b, m).0 == lan_of(b, m),
        lan_move(b, lan_pair_of(b, m).0) == m,
        lan_pair_of(b, m).1 matches Some(l) ==> lan_move_ok(b, l) && lan_move(b, l) == m,
{
    lemma_lan_round_trip(b, m);
    if exists|i: int, d: Coord, promo: Option<PieceKind>|
        plain_legal(b, i, d, promo) && m == #[trigger] plain_move(b, i, d, promo) {
    } else {
        let x = choose|x: int| castle_legal(b, x) && m == #[trigger] castle_move(b, x);
        lemma_castle_second_text(b, x);
    }
}


/// Reading back the Chess960 text `as_lan_chess960` gives for a legal move
/// gives the move itself, under the conditions of `lemma_lan_round_trip`.
pub proof fn lemma_lan_chess960_round_trip(b: Board, m: Move)
    requires
        b.wf(),
        en_passant_backed(b, m),
        legal(b, m),
        !lands_on_en_passant_target(b, m),
    ensures
        lan_move_ok(b, lan_chess960_of(b, m)),
        lan_move(b, lan_chess960_of(b, m)) == m,
{
    lemma_lan_round_trip(b, m);
    if rook_lan(b, m) is Some && standard_castling(b, m) {
        assert(!ambiguous_second_text(b, m));
        lemma_lan_pair_round_trip(b, m);
        assert(lan_pair_of(b, m).1 == Some(lan_chess960_of(b, m)));
    }
}


impl Moveable for Lan {
    open spec fn moveable_on(&self, board: Board) -> bool {
        lan_move_ok(board, *self)
    }

    open spec fn move_on(&self, board: Board) -> Move {
        lan_move(board, *self)
    }

    fn as_move(&self, board: &Board) -> (m: Move) {
        Lan::as_move(*self, board)
    }
}

impl Lan {
    /// Whether this text can be read as a move on the board, as `lan_move_ok` says.
    pub fn is_readable_on(self, board: &Board) -> (r: bool)
        requires
            board.wf(),
        ensures
            r == lan_move_ok(*board, self),
    {
        if !(self.origin.x < 8 && self.origin.y < 8 && self.destination.x < 8 && self.destination.y < 8) {
            return false;
        }
        let (_, p) = match board.piece_on(self.origin) {
            Some(found) => found,
            None => {
                return false;
            },
        };
        let c = p.piece.color;
        let takes_rook = match board.piece_on(self.destination) {
            Some((_, q)) => q.piece.color == c && q.piece.piece == PieceKind::Rook,
            None => false,
        };
        if takes_rook {
            return self.origin.x != self.destination.x;
        }
        if p.piece.piece == PieceKind::King && !king_step_apart(self.origin, self.destination) {
            return (self.destination.x == 2 || self.destination.x == 6) && board.find_side_rook(
                c,
                self.origin,
                self.destination.x == 6,
            ).is_some();
        }
        if board.en_passant_target == Some(self.destination) {
            let d = self.destination;
            let in_range = match c {
                Color::White => d.y < 7,
                Color::Black => d.y > 0,
            };
            if !in_range {
                return false;
            }
            let y: u8 = match c {
                Color::White => d.y + 1,
                Color::Black => d.y - 1,
            };
            let front = Coord::new(d.x, y);
            proof {
                assert(front == pawn_front(d, c.other()));
            }
            return match board.piece_on(front) {
                Some((_, q)) => q.piece.color == c.opposite() && q.piece.piece == PieceKind::Pawn,
                None => false,
            };
        }
        true
    }
}

/// The texts by which a move may be given.
pub open spec fn texts_of(b: Board, m: Move) -> Seq<Lan> {
    match lan_pair_of(b, m) {
        (first, Some(second)) => seq![first, second],
        (first, None) => seq![first],
    }
}

/// A legal move of a board that is not dead: one that `valid_moves` lists.
pub open spec fn listed(b: Board, m: Move) -> bool {
    !dead_position(b.pieces@) && legal(b, m)
}

/// `lan` reads as a move on `b` that `valid_moves` lists.
pub open spec fn playable(b: Board, lan: Lan) -> bool {
    lan_move_ok(b, lan) && listed(b, lan_move(b, lan))
}

/// `n` is the board after `lan` is played on `b`.
pub open spec fn played(b: Board, lan: Lan, n: Board) -> bool {
    let m = lan_move(b, lan);
    &&& playable(b, lan)
    &&& n.pieces@ == apply_slots(b.pieces@, b.current_player, m)
    &&& n.current_player == b.current_player.other()
    &&& n.castling_right == m.castling_right
    &&& n.en_passant_target == m.en_passant_target
}

/// The board after `lan` is played on `b`.
pub open spec fn play(b: Board, lan: Lan) -> Board {
    choose|n: Board| played(b, lan, n)
}

/// The board after the moves are played in turn, or the first of them that
/// cannot be played.
pub open spec fn play_all(b: Board, moves: Seq<Lan>) -> Result<Board, Lan>
    decreases moves.len(),
{
    if moves.len() == 0 {
        Ok(b)
    } else if playable(b, moves[0]) {
        play_all(play(b, moves[0]), moves.drop_first())
    } else {
        Err(moves[0])
    }
}

/// Only one board is the one after a move.
pub proof fn lemma_play_unique(b: Board, lan: Lan, n: Board)
    requires
        played(b, lan, n),
    ensures
        play(b, lan) == n,
{
    let c = play(b, lan);
    assert(played(b, lan, c));
    assert(c.pieces =~= n.pieces);
}

/// Playing two lists of moves in turn gives what playing them as one list
/// gives: the board after both, or the first move that cannot be played.
pub proof fn lemma_play_all_append(b: Board, first: Seq<Lan>, then: Seq<Lan>)
    ensures
        play_all(b, first + then) == match play_all(b, first) {
            Ok(mid) => play_all(mid, then),
            Err(l) => Err(l),
        },
    decreases first.len(),
{
    if first.len() == 0 {
        assert(first + then =~= then);
    } else {
        assert((first + then)[0] == first[0]);
        assert((first + then).drop_first() =~= first.drop_first() + then);
        if playable(b, first[0]) {
            lemma_play_all_append(play(b, first[0]), first.drop_first(), then);
        }
    }
}

impl Board {
    /// The moves that `valid_moves` lists, or none when the game is over.
    fn listed_moves(&self) -> (r: Vec<Move>)
        requires
            self.wf(),
        ensures
            forall|m: Move| r@.contains(m) <==> listed(*self, m),
    {
        match self.valid_moves() {
            Ok(v) => v,
            Err(_) => {
                let v: Vec<Move> = Vec::new();
                proof {
                    assert forall|m: Move| v@.contains(m) <==> listed(*self, m) by {
                        if listed(*self, m) {
                            assert(crate::rules::has_legal_move(*self));
                        }
                    }
                }
                v
            },
        }
    }

    /// Whether `lan` reads as a move that `valid_moves` lists.
    pub fn assert_move_is_valid(&self, lan: Lan) -> (r: bool)
        requires
            self.wf(),
        ensures
            r == (lan_move_ok(*self, lan) && listed(*self, lan_move(*self, lan))),
    {
        if !lan.is_readable_on(self) {
            return false;
        }
        let m = Lan::as_move(lan, self);
        let moves = self.listed_moves();
        let mut i: usize = 0;
        while i < moves.len()
            invariant
                0 <= i <= moves@.len(),
                m == lan_move(*self, lan),
                lan_move_ok(*self, lan),
                forall|mm: Move| moves@.contains(mm) <==> listed(*self, mm),
                forall|j: int| 0 <= j < i ==> moves@[j] != m,
            decreases moves@.len() - i,
        {
            if moves[i] == m {
                proof {
                    assert(moves@[i as int] == m);
                    assert(moves@.contains(m));
                }
                return true;
            }
            i = i + 1;
        }
        proof {
            if listed(*self, m) {
                assert(moves@.contains(m));
                let j = choose|j: int| 0 <= j < moves@.len() && moves@[j] == m;
                assert(moves@[j] != m);
            }
        }
        false
    }

    /// Plays `lan` when it reads as a move that `valid_moves` lists, telling
    /// whether it did; otherwise leaves the board as it is.
    pub fn move_assert(&mut self, lan: Lan) -> (r: bool)
        requires
            old(self).wf(),
        ensures
            r == playable(*old(self), lan),
            r ==> played(*old(self), lan, *final(self)),
            !r ==> *final(self) == *old(self),
            final(self).wf(),
    {
        if !self.assert_move_is_valid(lan) {
            return false;
        }
        let m = Lan::as_move(lan, self);
        proof {
            crate::board::lemma_legal_move_keeps_wf(*self, m);
        }
        self.move_piece(&m);
        true
    }

    /// Plays the moves from index `from` on in turn, as `play_all` says; on
    /// the first one that cannot be played, stops and gives it back.
    pub fn play_lans(&mut self, moves: &Vec<Lan>, from: usize) -> (r: Result<(), Lan>)
        requires
            old(self).wf(),
            from <= moves@.len(),
        ensures
            final(self).wf(),
            match play_all(*old(self), moves@.subrange(from as int, moves@.len() as int)) {
                Ok(b) => r is Ok && *final(self) == b,
                Err(l) => r == Err::<(), Lan>(l),
            },
    {
        let mut i = from;
        while i < moves.len()
            invariant
                from <= i <= moves@.len(),
                self.wf(),
                play_all(*old(self), moves@.subrange(from as int, moves@.len() as int)) == play_all(
                    *self,
                    moves@.subrange(i as int, moves@.len() as int),
                ),
            decreases moves@.len() - i,
        {
            let ghost before = *self;
            let lan = moves[i];
            let ghost rest = moves@.subrange(i as int, moves@.len() as int);
            proof {
                assert(rest[0] == lan);
                assert(rest.drop_first() =~= moves@.subrange(i + 1, moves@.len() as int));
            }
            if !self.move_assert(lan) {
                return Err(lan);
            }
            proof {
                lemma_play_unique(before, lan, *self);
            }
            i = i + 1;
        }
        proof {
            assert(moves@.subrange(i as int, moves@.len() as int) =~= Seq::<Lan>::empty());
        }
        Ok(())
    }

    /// Whether no move that `valid_moves` lists is given by the text `lan`.
    pub fn assert_move_is_invalid(&self, lan: Lan) -> (r: bool)
        requires
            self.wf(),
        ensures
            r == !exists|m: Move| #[trigger] listed(*self, m) && texts_of(*self, m).contains(lan),
    {
        let moves = self.listed_moves();
        let mut i: usize = 0;
        while i < moves.len()
            invariant
                self.wf(),
                0 <= i <= moves@.len(),
                forall|m: Move| moves@.contains(m) <==> listed(*self, m),
                forall|j: int| 0 <= j < i ==> !texts_of(*self, #[trigger] moves@[j]).contains(lan),
            decreases moves@.len() - i,
        {
            let m = moves[i];
            proof {
                assert(moves@[i as int] == m);
                assert(moves@.contains(m));
                assert(listed(*self, m));
                crate::board::lemma_legal_move_keeps_wf(*self, m);
                lemma_listed_readable(*self, m);
            }
            let texts = m.as_lan_iter(self);
            let mut k: usize = 0;
            while k < texts.len()
                invariant
                    0 <= k <= texts@.len(),
                    texts@ == texts_of(*self, m),
                    listed(*self, m),
                    forall|j: int| 0 <= j < k ==> texts@[j] != lan,
                decreases texts@.len() - k,
            {
                if texts[k] == lan {
                    proof {
                        assert(texts@[k as int] == lan);
                        assert(texts_of(*self, m).contains(lan));
                        assert(listed(*self, m) && texts_of(*self, m).contains(lan));
                    }
                    return false;
                }
                k = k + 1;
            }
            proof {
                assert(!texts_of(*self, m).contains(lan));
            }
            i = i + 1;
        }
        proof {
            assert forall|m: Move| !(#[trigger] listed(*self, m) && texts_of(*self, m).contains(lan)) by {
                if listed(*self, m) {
                    assert(moves@.contains(m));
                    let j = choose|j: int| 0 <= j < moves@.len() && moves@[j] == m;
                    assert(!texts_of(*self, moves@[j]).contains(lan));
                }
            }
        }
        true
    }

    /// Whether no move that `valid_moves` lists moves the piece on `position`.
    pub fn assert_piece_cant_move(&self, position: Coord) -> (r: bool)
        requires
            self.wf(),
        ensures
            r == !exists|m: Move|
                #[trigger] listed(*self, m) && self.pieces@[m.movement.index.0 as int]->Some_0.position
                    == position,
    {
        let moves = self.listed_moves();
        let mut i: usize = 0;
        while i < moves.len()
            invariant
                self.wf(),
                0 <= i <= moves@.len(),
                forall|m: Move| moves@.contains(m) <==> listed(*self, m),
                forall|j: int|
                    #![trigger moves@[j]]
                    0 <= j < i ==> self.pieces@[moves@[j].movement.index.0 as int]->Some_0.position
                        != position,
            decreases moves@.len() - i,
        {
            let m = moves[i];
            proof {
                assert(moves@[i as int] == m);
                assert(moves@.contains(m));
                assert(listed(*self, m));
                crate::board::lemma_legal_move_keeps_wf(*self, m);
            }
            let p = self.pieces[m.movement.index.0 as usize].unwrap();
            if p.position == position {
                proof {
                    assert(listed(*self, m) && self.pieces@[m.movement.index.0 as int]->Some_0.position == position);
                }
                return false;
            }
            i = i + 1;
        }
        proof {
            assert forall|m: Move|
                !(#[trigger] listed(*self, m) && self.pieces@[m.movement.index.0 as int]->Some_0.position
                    == position) by {
                if listed(*self, m) {
                    assert(moves@.contains(m));
                    let j = choose|j: int| 0 <= j < moves@.len() && moves@[j] == m;
                    assert(self.pieces@[moves@[j].movement.index.0 as int]->Some_0.position != position);
                }
            }
        }
        true
    }
}

/// The pieces a legal move names are on the board, and its destination is a square.
pub(crate) proof fn lemma_listed_readable(b: Board, m: Move)
    requires
        b.wf(),
        legal(b, m),
    ensures
        move_pieces_present(b, m),
        m.movement.destination.wf(),
{
    crate::board::lemma_legal_move_keeps_wf(b, m);
    if exists|i: int, d: Coord, promo: Option<PieceKind>|
        plain_legal(b, i, d, promo) && m == #[trigger] plain_move(b, i, d, promo) {
    } else {
        let x = choose|x: int| castle_legal(b, x) && m == #[trigger] castle_move(b, x);
    }
}

} // verus!
