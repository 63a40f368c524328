use vstd::prelude::*;
use crate::castling_right::CastlingRight;
use crate::color::{Color, InvalidByte};
use crate::coord::{home_rank_of, square, Coord};
use crate::piece::{ColoredPieceKind, Piece, PieceKind};
use crate::rules::{Slots, along, apply_slots, attacked_by, attacker, attacks, capture_of, castle_king_file, castle_legal, castle_move, castle_rook_file, clear_path, dead_position, diagonal, distance, en_passant_after, find_at, has_legal_move, in_check, index_at, is_attacked_by, is_occupied, kind_range, king_apart, king_slot, lemma_castle_king_path_blocked, lemma_castle_rook_path_blocked, knight_apart, legal, lemma_index_at, line_step, lined_up, lone_king, minor_only, non_king, occ, occupied, on_rank_path, path_clear, pawn_attacker, pawn_attacks, pawn_front, piece_at, piece_attacks, plain_legal, plain_move, positions_wf, promotion_ok, pseudo_legal, reaches, rights_after, slot_color, slot_fits, slots_wf, straight};
use crate::end_state::EndState;
use crate::setup::{lemma_castle_keeps_validation, lemma_plain_move_keeps_validation, validation, InvalidBoard};

verus! {

/// The slot of a piece on a `Board` (0 to 31).
#[derive(Debug, Clone, Copy, PartialEq, Eq, Hash, Structural)]
pub struct PieceIndex(pub u8);

impl PieceIndex {
    pub open spec fn wf(self) -> bool {
        self.0 < 32
    }

    /// The slot number.
    pub fn to_usize(self) -> (r: usize)
        ensures
            r == self.0,
    {
        self.0 as usize
    }

    /// The index of a slot number below 32.
    pub fn try_from_usize(value: usize) -> (r: Result<PieceIndex, InvalidByte>)
        ensures
            match r {
                Ok(i) => value < 32 && i.0 == value,
                Err(_) => value >= 32,
            },
    {
        if value >= 32 {
            Err(InvalidByte)
        } else {
            Ok(PieceIndex(value as u8))
        }
    }
}

/// One piece moving, possibly capturing another.
#[derive(Debug, Clone, Copy, PartialEq, Eq, Hash, Structural)]
pub struct SimpleMove {
    pub index: PieceIndex,
    pub destination: Coord,
    pub capture: Option<PieceIndex>,
}

/// A full move: the piece that moves, the rook when castling, the promotion,
/// and the en passant target and castling rights of the resulting position.
#[derive(Debug, Clone, Copy, PartialEq, Eq, Hash, Structural)]
pub struct Move {
    pub movement: SimpleMove,
    pub castling_rook: Option<SimpleMove>,
    pub promotion: Option<PieceKind>,
    pub en_passant_target: Option<Coord>,
    pub castling_right: CastlingRight,
}

impl SimpleMove {
    /// A move with no rook, promotion or en passant target.
    pub fn to_simple_move(self, castling_right: CastlingRight) -> (r: Move)
        ensures
            r == (Move {
                movement: self,
                castling_rook: None,
                promotion: None,
                en_passant_target: None,
                castling_right,
            }),
    {
        Move {
            movement: self,
            castling_rook: None,
            promotion: None,
            en_passant_target: None,
            castling_right,
        }
    }
}

/// A chess position: 32 piece slots (white king, queen, rooks, bishops,
/// knights, pawns, then the same for black), the side to move, the castling
/// rights and the en passant target.
#[derive(Debug, Clone, Copy)]
pub struct Board {
    pub pieces: [Option<Piece>; 32],
    pub current_player: Color,
    pub castling_right: CastlingRight,
    pub en_passant_target: Option<Coord>,
}

impl Board {
    /// The board is well formed: its slots are, and the en passant target is a square.
    pub open spec fn wf(self) -> bool {
        &&& slots_wf(self.pieces@)
        &&& (self.en_passant_target matches Some(t) ==> t.wf() && !occupied(self.pieces@, t))
    }

    pub fn current_player(&self) -> (c: Color)
        ensures
            c == self.current_player,
    {
        self.current_player
    }
}


impl Board {
    /// The slot and piece standing on `sq`, if any.
    pub(crate) fn piece_on(&self, sq: Coord) -> (r: Option<(usize, Piece)>)
        requires
            self.wf(),
        ensures
            match r {
                Some((j, p)) => occ(self.pieces@, sq, j as int) && self.pieces@[j as int] == Some(p)
                    && index_at(self.pieces@, sq) == Some(j as int) && piece_at(self.pieces@, sq)
                    == Some(p.piece),
                None => !occupied(self.pieces@, sq) && index_at(self.pieces@, sq) is None && piece_at(
                    self.pieces@,
                    sq,
                ) is None,
            },
    {
        match find_at(&self.pieces, sq) {
            Some(j) => {
                proof {
                    lemma_index_at(self.pieces@, sq, j as int);
                }
                Some((j, self.pieces[j].unwrap()))
            },
            None => None,
        }
    }

    /// The piece in slot `i` can go to `d` by the way it moves.
    fn reaches_exec(&self, i: usize, d: Coord) -> (r: bool)
        requires
            self.wf(),
            i < 32,
            self.pieces@[i as int] is Some,
            d.wf(),
        ensures
            r == reaches(*self, i as int, d),
    {
        let s = &self.pieces;
        let p = self.pieces[i].unwrap();
        let from = p.position;
        let c = p.piece.color;
        let dx: i8 = d.x as i8 - from.x as i8;
        let dy: i8 = d.y as i8 - from.y as i8;
        let ax: i8 = if dx < 0 {
            -dx
        } else {
            dx
        };
        let ay: i8 = if dy < 0 {
            -dy
        } else {
            dy
        };
        match p.piece.piece {
            PieceKind::Knight => (ax == 1 && ay == 2) || (ax == 2 && ay == 1),
            PieceKind::King => ax <= 1 && ay <= 1 && !(dx == 0 && dy == 0),
            PieceKind::Bishop => ax == ay && dx != 0 && path_clear(s, from, d),
            PieceKind::Rook => ((dx == 0) != (dy == 0)) && path_clear(s, from, d),
            PieceKind::Queen => ((ax == ay && dx != 0) || ((dx == 0) != (dy == 0))) && path_clear(
                s,
                from,
                d,
            ),
            PieceKind::Pawn => {
                let dir: i8 = match c {
                    Color::White => -1,
                    Color::Black => 1,
                };
                if dx == 0 && dy == dir {
                    !is_occupied(s, d)
                } else if dx == 0 && dy == 2 * dir {
                    if from.y != crate::coord::pawn_home_rank(c) || is_occupied(s, d) {
                        false
                    } else {
                        let front_y = (from.y as i8 + dir) as u8;
                        let front = Coord::new(from.x, front_y);
                        assert(front == pawn_front(from, c));
                        !is_occupied(s, front)
                    }
                } else if ax == 1 && dy == dir {
                    is_occupied(s, d) || self.en_passant_target == Some(d)
                } else {
                    false
                }
            },
        }
    }

    /// Whether the promotion choice fits a move of slot `i` to `d`.
    fn promotion_ok_exec(&self, i: usize, d: Coord, promo: Option<PieceKind>) -> (r: bool)
        requires
            i < 32,
            self.pieces@[i as int] is Some,
        ensures
            r == promotion_ok(*self, i as int, d, promo),
    {
        let p = self.pieces[i].unwrap();
        if p.piece.piece == PieceKind::Pawn && d.y == crate::coord::pawn_promotion_rank(
            p.piece.color,
        ) {
            match promo {
                Some(PieceKind::Queen) | Some(PieceKind::Rook) | Some(PieceKind::Bishop) | Some(
                    PieceKind::Knight,
                ) => true,
                _ => false,
            }
        } else {
            promo.is_none()
        }
    }

    /// The slot captured by a move of slot `i` to `d`.
    fn capture_exec(&self, i: usize, d: Coord) -> (r: Option<usize>)
        requires
            self.wf(),
            i < 32,
            self.pieces@[i as int] is Some,
            d.wf(),
        ensures
            match r {
                Some(c) => capture_of(*self, i as int, d) == Some(c as int) && c < 32,
                None => capture_of(*self, i as int, d) is None,
            },
    {
        let p = self.pieces[i].unwrap();
        let c = p.piece.color;
        let dx: i8 = d.x as i8 - p.position.x as i8;
        let dy: i8 = d.y as i8 - p.position.y as i8;
        let dir: i8 = match c {
            Color::White => -1,
            Color::Black => 1,
        };
        if p.piece.piece == PieceKind::Pawn && (dx == 1 || dx == -1) && dy == dir
            && self.en_passant_target == Some(d) {
            // the captured pawn stands behind the target, from the mover's view
            let by: i8 = d.y as i8 - dir;
            if by < 0 || by >= 8 {
                proof {
                    let sq = pawn_front(d, c.other());
                    assert(!(sq.y < 8)) by {
                        assert(sq.y as int == (d.y - dir) as u8);
                    }
                    assert forall|j: int| !#[trigger] occ(self.pieces@, sq, j) by {
                        if occ(self.pieces@, sq, j) {
                            assert(self.pieces@[j] is Some);
                        }
                    }
                }
                None
            } else {
                let sq = Coord::new(d.x, by as u8);
                assert(sq == pawn_front(d, c.other()));
                match self.piece_on(sq) {
                    Some((j, _)) => Some(j),
                    None => None,
                }
            }
        } else {
            match self.piece_on(d) {
                Some((j, _)) => Some(j),
                None => None,
            }
        }
    }

    /// Whether the move of slot `i` to `d` with the given promotion follows the
    /// piece's movement and the capturing rules.
    pub fn pseudo_legal_exec(&self, i: usize, d: Coord, promo: Option<PieceKind>) -> (r: bool)
        requires
            self.wf(),
            i < 32,
            d.wf(),
        ensures
            r == pseudo_legal(*self, i as int, d, promo),
    {
        let p = match self.pieces[i] {
            Some(p) => p,
            None => return false,
        };
        if p.piece.color != self.current_player {
            return false;
        }
        match self.piece_on(d) {
            Some((_, q)) => {
                if q.piece.color == self.current_player {
                    return false;
                }
            },
            None => {},
        }
        if !self.reaches_exec(i, d) {
            return false;
        }
        match self.capture_exec(i, d) {
            Some(ci) => {
                let q = self.pieces[ci].unwrap();
                if q.piece.color == self.current_player || q.piece.piece == PieceKind::King {
                    return false;
                }
            },
            None => {},
        }
        self.promotion_ok_exec(i, d, promo)
    }
}


/// Whether a pawn of `color` attacks `t`.
pub(crate) fn pawn_attacker_exists(s: &[Option<Piece>; 32], t: Coord, color: Color) -> (r: bool)
    ensures
        r == exists|j: int| #[trigger] pawn_attacker(s@, t, color, j),
{
    let mut j: usize = 0;
    while j < 32
        invariant
            0 <= j <= 32,
            s@.len() == 32,
            forall|k: int| 0 <= k < j ==> !#[trigger] pawn_attacker(s@, t, color, k),
        decreases 32 - j,
    {
        match s[j] {
            Some(q) => {
                if q.piece.color == color && q.piece.piece == PieceKind::Pawn {
                    let dx: i16 = t.x as i16 - q.position.x as i16;
                    let dy: i16 = t.y as i16 - q.position.y as i16;
                    let dir: i16 = match color {
                        Color::White => -1,
                        Color::Black => 1,
                    };
                    if (dx == 1 || dx == -1) && dy == dir {
                        assert(pawn_attacker(s@, t, color, j as int));
                        return true;
                    }
                }
            },
            None => {},
        }
        j = j + 1;
    }
    proof {
        assert forall|k: int| !#[trigger] pawn_attacker(s@, t, color, k) by {
            if 0 <= k < 32 {
            }
        }
    }
    false
}

/// The slots after a move, as `apply_slots` describes them.
pub fn apply_to_slots(s: &[Option<Piece>; 32], mover: Color, m: &Move) -> (r: [Option<Piece>; 32])
    requires
        move_applicable(s@, *m),
    ensures
        r@ == apply_slots(s@, mover, *m),
{
    let mut r = *s;
    let i = m.movement.index.0 as usize;
    let p = r[i].unwrap();
    let piece = match m.promotion {
        Some(k) => ColoredPieceKind { color: mover, piece: k },
        None => p.piece,
    };
    r[i] = Some(Piece { piece, position: m.movement.destination });
    match m.movement.capture {
        Some(c) => {
            r[c.0 as usize] = None;
        },
        None => {},
    }
    match m.castling_rook {
        Some(rk) => {
            let k = rk.index.0 as usize;
            let q = r[k].unwrap();
            r[k] = Some(Piece { piece: q.piece, position: rk.destination });
        },
        None => {},
    }
    proof {
        assert(r@ =~= apply_slots(s@, mover, *m));
    }
    r
}

impl Board {
    /// The castling rights after a move of slot `i` to `d`.
    fn rights_exec(&self, i: usize, d: Coord, capture: Option<usize>) -> (r: CastlingRight)
        requires
            self.wf(),
            i < 32,
            self.pieces@[i as int] is Some,
            d.wf(),
            match capture {
                Some(c) => capture_of(*self, i as int, d) == Some(c as int) && c < 32,
                None => capture_of(*self, i as int, d) is None,
            },
        ensures
            r == rights_after(*self, i as int, d),
    {
        let p = self.pieces[i].unwrap();
        let c = p.piece.color;
        let base = if p.piece.piece == PieceKind::Rook && p.position.y == crate::coord::home_rank(
            c,
        ) {
            self.castling_right.to_removed(c, p.position.x)
        } else if p.piece.piece == PieceKind::King {
            self.castling_right.to_cleared(c)
        } else {
            self.castling_right
        };
        match capture {
            Some(ci) => {
                let q = self.pieces[ci].unwrap();
                base.to_removed_for_rook_capture(q)
            },
            None => base,
        }
    }

    /// The move record of slot `i` going to `d`.
    pub fn plain_move_exec(&self, i: usize, d: Coord, promo: Option<PieceKind>) -> (r: Move)
        requires
            self.wf(),
            i < 32,
            self.pieces@[i as int] is Some,
            d.wf(),
        ensures
            r == plain_move(*self, i as int, d, promo),
    {
        let p = self.pieces[i].unwrap();
        let c = p.piece.color;
        let capture = self.capture_exec(i, d);
        let castling_right = self.rights_exec(i, d, capture);
        let dir: i8 = match c {
            Color::White => -1,
            Color::Black => 1,
        };
        let dy: i8 = d.y as i8 - p.position.y as i8;
        let en_passant_target = if p.piece.piece == PieceKind::Pawn && d.x == p.position.x && dy
            == 2 * dir {
            let mid = Coord::new(p.position.x, (p.position.y as i8 + dir) as u8);
            assert(mid == pawn_front(p.position, c));
            if pawn_attacker_exists(&self.pieces, mid, c.opposite()) {
                Some(mid)
            } else {
                None
            }
        } else {
            None
        };
        Move {
            movement: SimpleMove {
                index: PieceIndex(i as u8),
                destination: d,
                capture: match capture {
                    Some(ci) => Some(PieceIndex(ci as u8)),
                    None => None,
                },
            },
            castling_rook: None,
            promotion: promo,
            en_passant_target,
            castling_right,
        }
    }

    /// Whether the king of the side to move is attacked after a move.
    fn king_attacked_after(&self, m: &Move) -> (r: bool)
        requires
            self.wf(),
            m.movement.index.0 < 32,
            self.pieces@[m.movement.index.0 as int] is Some,
            m.movement.destination.wf(),
            m.movement.capture matches Some(c) ==> c.0 < 32 && c.0 != king_slot(self.current_player),
            m.castling_rook matches Some(rk) ==> rk.index.0 < 32 && self.pieces@[rk.index.0 as int] is Some
                && rk.index != m.movement.index && m.movement.capture is None
                && rk.destination.wf() && rk.index.0 != king_slot(self.current_player),
        ensures
            r == in_check(apply_slots(self.pieces@, self.current_player, *m), self.current_player),
    {
        let after = apply_to_slots(&self.pieces, self.current_player, m);
        let k: usize = match self.current_player {
            Color::White => 0,
            Color::Black => 16,
        };
        proof {
            assert(positions_wf(after@)) by {
                assert forall|j: int| 0 <= j < 32 && #[trigger] after@[j] is Some implies after@[j]->Some_0.position.wf() by {
                    if j == m.movement.index.0 {
                    } else if m.castling_rook matches Some(rk) && j == rk.index.0 {
                    } else {
                        assert(self.pieces@[j] is Some);
                    }
                }
            }
            assert(after@[k as int] is Some);
        }
        let king = after[k].unwrap();
        is_attacked_by(&after, king.position, self.current_player.opposite())
    }

    /// Whether the move of slot `i` to `d` is legal (castling aside).
    pub fn plain_legal_exec(&self, i: usize, d: Coord, promo: Option<PieceKind>) -> (r: bool)
        requires
            self.wf(),
            i < 32,
            d.wf(),
        ensures
            r == plain_legal(*self, i as int, d, promo),
    {
        if !self.pseudo_legal_exec(i, d, promo) {
            return false;
        }
        let m = self.plain_move_exec(i, d, promo);
        proof {
            let s = self.pieces@;
            if let Some(ci) = capture_of(*self, i as int, d) {
                assert(s[ci] is Some);
                assert(ci != king_slot(self.current_player)) by {
                    if ci == king_slot(self.current_player) {
                        assert(slot_fits(ci, slot_color(ci), s[ci]->Some_0.piece.piece));
                    }
                }
            }
        }
        !self.king_attacked_after(&m)
    }
}


/// The move `m` is a legal move of slot `i` to `d` with some promotion.
pub open spec fn move_of(b: Board, i: int, d: Coord, m: Move) -> bool {
    exists|promo: Option<PieceKind>| plain_legal(b, i, d, promo) && m == #[trigger] plain_move(b, i, d, promo)
}

proof fn lemma_contains_concat(a: Seq<Move>, b: Seq<Move>, m: Move)
    ensures
        (a + b).contains(m) <==> a.contains(m) || b.contains(m),
{
    if (a + b).contains(m) {
        let k = choose|k: int| 0 <= k < (a + b).len() && (a + b)[k] == m;
        if k < a.len() {
            assert(a[k] == m);
        } else {
            assert(b[k - a.len()] == m);
        }
    }
    if a.contains(m) {
        let k = choose|k: int| 0 <= k < a.len() && a[k] == m;
        assert((a + b)[k] == m);
    }
    if b.contains(m) {
        let k = choose|k: int| 0 <= k < b.len() && b[k] == m;
        assert((a + b)[k + a.len()] == m);
    }
}

proof fn lemma_contains_push(a: Seq<Move>, x: Move, m: Move)
    ensures
        a.push(x).contains(m) <==> a.contains(m) || m == x,
{
    if a.push(x).contains(m) {
        let k = choose|k: int| 0 <= k < a.push(x).len() && a.push(x)[k] == m;
        if k < a.len() {
            assert(a[k] == m);
        }
    }
    if a.contains(m) {
        let k = choose|k: int| 0 <= k < a.len() && a[k] == m;
        assert(a.push(x)[k] == m);
    }
    if m == x {
        assert(a.push(x)[a.len() as int] == m);
    }
}

impl Board {
    /// All legal moves of slot `i` to `d` (one per promotion choice).
    fn moves_to(&self, i: usize, d: Coord) -> (r: Vec<Move>)
        requires
            self.wf(),
            i < 32,
            d.wf(),
        ensures
            forall|m: Move| r@.contains(m) <==> move_of(*self, i as int, d, m),
            r@.no_duplicates(),
            forall|k: int|
                0 <= k < r@.len() ==> (#[trigger] r@[k]).movement.index.0 == i && r@[k].movement.destination == d
                    && r@[k].castling_rook is None,
    {
        let mut r: Vec<Move> = Vec::new();
        let promotes = match self.pieces[i] {
            Some(p) => p.piece.piece == PieceKind::Pawn && d.y == crate::coord::pawn_promotion_rank(
                p.piece.color,
            ),
            None => false,
        };
        if promotes {
            let choices = PieceKind::promotion_choices();
            let mut k: usize = 0;
            while k < 4
                invariant
                    self.wf(),
                    i < 32,
                    d.wf(),
                    0 <= k <= 4,
                    self.pieces@[i as int] is Some,
                    choices@ == seq![PieceKind::Queen, PieceKind::Rook, PieceKind::Bishop, PieceKind::Knight],
                    promotion_ok(*self, i as int, d, Some(PieceKind::Queen)),
                    forall|m: Move| r@.contains(m) <==> exists|promo: Option<PieceKind>|
                        (exists|j: int| 0 <= j < k && promo == Some(choices@[j]))
                        && plain_legal(*self, i as int, d, promo) && m == #[trigger] plain_move(*self, i as int, d, promo),
                    r@.no_duplicates(),
                    forall|a: int|
                        0 <= a < r@.len() ==> (#[trigger] r@[a]).movement.index.0 == i && r@[a].movement.destination == d
                            && r@[a].castling_rook is None && r@[a].promotion is Some && promotion_rank(
                            r@[a].promotion->Some_0,
                        ) < k,
                decreases 4 - k,
            {
                let promo = Some(choices[k]);
                let ghost old_r = r@;
                if self.plain_legal_exec(i, d, promo) {
                    let m = self.plain_move_exec(i, d, promo);
                    r.push(m);
                    proof {
                        assert(promotion_rank(choices@[k as int]) == k);
                        assert forall|a: int, b: int|
                            0 <= a < r@.len() && 0 <= b < r@.len() && a != b implies r@[a] != r@[b] by {
                            if a < old_r.len() && b < old_r.len() {
                                assert(r@[a] == old_r[a] && r@[b] == old_r[b]);
                            } else if a < old_r.len() {
                                assert(r@[a] == old_r[a]);
                            } else if b < old_r.len() {
                                assert(r@[b] == old_r[b]);
                            }
                        }
                        assert forall|a: int| 0 <= a < r@.len() implies (#[trigger] r@[a]).movement.index.0 == i
                            && r@[a].movement.destination == d && r@[a].castling_rook is None && r@[a].promotion is Some
                            && promotion_rank(r@[a].promotion->Some_0) < k + 1 by {
                            if a < old_r.len() {
                                assert(r@[a] == old_r[a]);
                            }
                        }
                    }
                }
                proof {
                    assert forall|m: Move| r@.contains(m) <==> exists|promo: Option<PieceKind>|
                        (exists|j: int| 0 <= j < k + 1 && promo == Some(choices@[j]))
                        && plain_legal(*self, i as int, d, promo) && m == #[trigger] plain_move(*self, i as int, d, promo) by {
                        if r@ != old_r {
                            lemma_contains_push(old_r, plain_move(*self, i as int, d, promo), m);
                        }
                        if r@.contains(m) {
                            if old_r.contains(m) {
                                let p2 = choose|p2: Option<PieceKind>|
                                    (exists|j: int| 0 <= j < k && p2 == Some(choices@[j]))
                                    && plain_legal(*self, i as int, d, p2) && m == #[trigger] plain_move(*self, i as int, d, p2);
                                let j = choose|j: int| 0 <= j < k && p2 == Some(choices@[j]);
                                assert(0 <= j < k + 1 && p2 == Some(choices@[j]));
                            } else {
                                assert(0 <= k < k + 1 && promo == Some(choices@[k as int]));
                            }
                        }
                        if exists|p2: Option<PieceKind>|
                            (exists|j: int| 0 <= j < k + 1 && p2 == Some(choices@[j]))
                            && plain_legal(*self, i as int, d, p2) && m == #[trigger] plain_move(*self, i as int, d, p2) {
                            let p2 = choose|p2: Option<PieceKind>|
                                (exists|j: int| 0 <= j < k + 1 && p2 == Some(choices@[j]))
                                && plain_legal(*self, i as int, d, p2) && m == #[trigger] plain_move(*self, i as int, d, p2);
                            let j = choose|j: int| 0 <= j < k + 1 && p2 == Some(choices@[j]);
                            if j < k {
                                assert(old_r.contains(m));
                            } else {
                                assert(p2 == promo);
                            }
                        }
                    }
                }
                k = k + 1;
            }
            proof {
                assert forall|m: Move| r@.contains(m) <==> move_of(*self, i as int, d, m) by {
                    if move_of(*self, i as int, d, m) {
                        let p2 = choose|p2: Option<PieceKind>| plain_legal(*self, i as int, d, p2) && m == #[trigger] plain_move(*self, i as int, d, p2);
                        assert(promotion_ok(*self, i as int, d, p2));
                        if p2 == Some(PieceKind::Queen) {
                            assert(p2 == Some(choices@[0]));
                        } else if p2 == Some(PieceKind::Rook) {
                            assert(p2 == Some(choices@[1]));
                        } else if p2 == Some(PieceKind::Bishop) {
                            assert(p2 == Some(choices@[2]));
                        } else {
                            assert(p2 == Some(choices@[3]));
                        }
                    }
                }
            }
        } else {
            if self.plain_legal_exec(i, d, None) {
                let m = self.plain_move_exec(i, d, None);
                r.push(m);
            }
            proof {
                assert forall|m: Move| r@.contains(m) <==> move_of(*self, i as int, d, m) by {
                    if r@.contains(m) {
                        let k = choose|k: int| 0 <= k < r@.len() && r@[k] == m;
                        assert(k == 0);
                    }
                    if move_of(*self, i as int, d, m) {
                        let p2 = choose|p2: Option<PieceKind>| plain_legal(*self, i as int, d, p2) && m == #[trigger] plain_move(*self, i as int, d, p2);
                        assert(promotion_ok(*self, i as int, d, p2));
                        assert(p2 is None);
                        assert(r@[0] == m);
                    }
                }
            }
        }
        r
    }
}


impl Board {
    /// All legal moves of the piece in slot `i` (castling aside).
    fn moves_of_slot(&self, i: usize) -> (r: Vec<Move>)
        requires
            self.wf(),
            i < 32,
        ensures
            forall|m: Move| r@.contains(m) <==> exists|d: Coord| d.wf() && #[trigger] move_of(*self, i as int, d, m),
            r@.no_duplicates(),
            forall|k: int| 0 <= k < r@.len() ==> (#[trigger] r@[k]).movement.index.0 == i && r@[k].castling_rook is None,
    {
        let mut r: Vec<Move> = Vec::new();
        let movable = match self.pieces[i] {
            Some(p) => p.piece.color == self.current_player,
            None => false,
        };
        if !movable {
            proof {
                assert forall|m: Move| r@.contains(m) <==> exists|d: Coord| d.wf() && #[trigger] move_of(*self, i as int, d, m) by {
                    if exists|d: Coord| d.wf() && #[trigger] move_of(*self, i as int, d, m) {
                        let d = choose|d: Coord| d.wf() && #[trigger] move_of(*self, i as int, d, m);
                        let p2 = choose|p2: Option<PieceKind>| plain_legal(*self, i as int, d, p2) && m == #[trigger] plain_move(*self, i as int, d, p2);
                        assert(pseudo_legal(*self, i as int, d, p2));
                    }
                }
            }
            return r;
        }
        let mut y: u8 = 0;
        while y < 8
            invariant
                self.wf(),
                i < 32,
                0 <= y <= 8,
                forall|m: Move| r@.contains(m) <==> exists|d: Coord| d.wf() && d.y < y && #[trigger] move_of(*self, i as int, d, m),
                r@.no_duplicates(),
                forall|k: int|
                    0 <= k < r@.len() ==> (#[trigger] r@[k]).movement.index.0 == i && r@[k].castling_rook is None
                        && r@[k].movement.destination.y < y,
            decreases 8 - y,
        {
            let mut x: u8 = 0;
            while x < 8
                invariant
                    self.wf(),
                    i < 32,
                    0 <= y < 8,
                    0 <= x <= 8,
                    forall|m: Move| r@.contains(m) <==> exists|d: Coord| d.wf() && (d.y < y || (d.y == y && d.x < x)) && #[trigger] move_of(*self, i as int, d, m),
                    r@.no_duplicates(),
                    forall|k: int|
                        0 <= k < r@.len() ==> (#[trigger] r@[k]).movement.index.0 == i && r@[k].castling_rook is None
                            && (r@[k].movement.destination.y < y || (r@[k].movement.destination.y == y
                            && r@[k].movement.destination.x < x)),
                decreases 8 - x,
            {
                let d = Coord::new(x, y);
                let mut v = self.moves_to(i, d);
                let ghost old_r = r@;
                let ghost vv = v@;
                r.append(&mut v);
                proof {
                    assert forall|a: int, b: int| 0 <= a < old_r.len() && 0 <= b < vv.len() implies old_r[a] != vv[b] by {
                        assert(vv[b].movement.destination == d);
                    }
                    vstd::seq_lib::lemma_no_dup_in_concat(old_r, vv);
                    assert forall|k: int| 0 <= k < r@.len() implies (#[trigger] r@[k]).movement.index.0 == i
                        && r@[k].castling_rook is None && (r@[k].movement.destination.y < y || (
                        r@[k].movement.destination.y == y && r@[k].movement.destination.x < x + 1)) by {
                        if k < old_r.len() {
                            assert(r@[k] == old_r[k]);
                        } else {
                            assert(r@[k] == vv[k - old_r.len()]);
                        }
                    }
                    assert forall|m: Move| r@.contains(m) <==> exists|d2: Coord| d2.wf() && (d2.y < y || (d2.y == y && d2.x < x + 1)) && #[trigger] move_of(*self, i as int, d2, m) by {
                        lemma_contains_concat(old_r, vv, m);
                        if exists|d2: Coord| d2.wf() && (d2.y < y || (d2.y == y && d2.x < x + 1)) && #[trigger] move_of(*self, i as int, d2, m) {
                            let d2 = choose|d2: Coord| d2.wf() && (d2.y < y || (d2.y == y && d2.x < x + 1)) && #[trigger] move_of(*self, i as int, d2, m);
                            if d2.y == y && d2.x == x {
                                assert(d2 == d);
                            } else {
                                assert(old_r.contains(m));
                            }
                        }
                    }
                }
                x = x + 1;
            }
            proof {
                assert forall|m: Move| r@.contains(m) <==> exists|d: Coord| d.wf() && d.y < y + 1 && #[trigger] move_of(*self, i as int, d, m) by {
                    if exists|d: Coord| d.wf() && d.y < y + 1 && #[trigger] move_of(*self, i as int, d, m) {
                        let d = choose|d: Coord| d.wf() && d.y < y + 1 && #[trigger] move_of(*self, i as int, d, m);
                        assert(d.y < y || (d.y == y && d.x < 8));
                    }
                }
            }
            y = y + 1;
        }
        r
    }

    /// All legal moves other than castling.
    fn plain_moves(&self) -> (r: Vec<Move>)
        requires
            self.wf(),
        ensures
            forall|m: Move| r@.contains(m) <==> exists|i: int, d: Coord| 0 <= i < 32 && d.wf() && #[trigger] move_of(*self, i, d, m),
            r@.no_duplicates(),
            forall|k: int| 0 <= k < r@.len() ==> (#[trigger] r@[k]).castling_rook is None,
    {
        let mut r: Vec<Move> = Vec::new();
        let mut i: usize = 0;
        while i < 32
            invariant
                self.wf(),
                0 <= i <= 32,
                forall|m: Move| r@.contains(m) <==> exists|i2: int, d: Coord| 0 <= i2 < i && d.wf() && #[trigger] move_of(*self, i2, d, m),
                r@.no_duplicates(),
                forall|k: int| 0 <= k < r@.len() ==> (#[trigger] r@[k]).castling_rook is None && r@[k].movement.index.0 < i,
            decreases 32 - i,
        {
            let mut v = self.moves_of_slot(i);
            let ghost old_r = r@;
            let ghost vv = v@;
            r.append(&mut v);
            proof {
                assert forall|a: int, b: int| 0 <= a < old_r.len() && 0 <= b < vv.len() implies old_r[a] != vv[b] by {
                    assert(vv[b].movement.index.0 == i);
                }
                vstd::seq_lib::lemma_no_dup_in_concat(old_r, vv);
                assert forall|k: int| 0 <= k < r@.len() implies (#[trigger] r@[k]).castling_rook is None
                    && r@[k].movement.index.0 < i + 1 by {
                    if k < old_r.len() {
                        assert(r@[k] == old_r[k]);
                    } else {
                        assert(r@[k] == vv[k - old_r.len()]);
                    }
                }
            }
            proof {
                assert forall|m: Move| r@.contains(m) <==> exists|i2: int, d: Coord| 0 <= i2 < i + 1 && d.wf() && #[trigger] move_of(*self, i2, d, m) by {
                    lemma_contains_concat(old_r, vv, m);
                    if vv.contains(m) {
                        let d = choose|d: Coord| d.wf() && #[trigger] move_of(*self, i as int, d, m);
                        assert(0 <= i < i + 1 && d.wf() && move_of(*self, i as int, d, m));
                    }
                    if old_r.contains(m) {
                        let (i2, d) = choose|i2: int, d: Coord| 0 <= i2 < i && d.wf() && #[trigger] move_of(*self, i2, d, m);
                        assert(0 <= i2 < i + 1 && d.wf() && move_of(*self, i2, d, m));
                    }
                    if exists|i2: int, d: Coord| 0 <= i2 < i + 1 && d.wf() && #[trigger] move_of(*self, i2, d, m) {
                        let (i2, d) = choose|i2: int, d: Coord| 0 <= i2 < i + 1 && d.wf() && #[trigger] move_of(*self, i2, d, m);
                        if i2 == i {
                            assert(vv.contains(m));
                        } else {
                            assert(old_r.contains(m));
                        }
                    }
                }
            }
            i = i + 1;
        }
        r
    }
}


impl Board {
    /// Whether castling with the rook on file `x` is legal.
    pub fn castle_legal_exec(&self, x: u8) -> (r: bool)
        requires
            self.wf(),
            x < 8,
        ensures
            r == castle_legal(*self, x as int),
    {
        let s = &self.pieces;
        let c = self.current_player;
        let home = crate::coord::home_rank(c);
        let k: usize = match c {
            Color::White => 0,
            Color::Black => 16,
        };
        let king = self.pieces[k].unwrap();
        if !self.castling_right.get(c, x) || king.position.y != home || king.position.x == x {
            return false;
        }
        if is_attacked_by(s, king.position, c.opposite()) {
            return false;
        }
        let rook_sq = Coord::new(x, home);
        let (ri, rook) = match self.piece_on(rook_sq) {
            Some(found) => found,
            None => return false,
        };
        if rook.piece.color != c || rook.piece.piece != PieceKind::Rook {
            return false;
        }
        let mut lifted = *s;
        lifted[k] = None;
        lifted[ri] = None;
        proof {
            assert(lifted@ =~= s@.update(king_slot(c), None).update(ri as int, None));
            assert(positions_wf(lifted@)) by {
                assert forall|j: int| 0 <= j < 32 && #[trigger] lifted@[j] is Some implies lifted@[j]->Some_0.position.wf() by {
                    assert(s@[j] is Some);
                }
            }
        }
        let kx = king.position.x;
        let (king_file, rook_file): (u8, u8) = if kx < x {
            (6, 5)
        } else {
            (2, 3)
        };
        let mut f: u8 = 0;
        while f < 8
            invariant
                self.wf(),
                *s == self.pieces,
                0 <= f <= 8,
                x < 8,
                kx < 8,
                home < 8,
                home == home_rank_of(c),
                c == self.current_player,
                rook_sq == square(x as int, home as int),
                king.position.x == kx,
                king == self.pieces@[king_slot(c)]->Some_0,
                king_file == castle_king_file(kx as int, x as int),
                positions_wf(lifted@),
                lifted@ == s@.update(king_slot(c), None).update(ri as int, None),
                index_at(s@, rook_sq) == Some(ri as int),
                forall|g: int| 0 <= g < f && on_rank_path(kx as int, king_file as int, g) ==> (
                    square(g, home as int) == rook_sq || !occupied(s@, #[trigger] square(g, home as int)))
                    && !attacked_by(lifted@, square(g, home as int), c.other()),
            decreases 8 - f,
        {
            let on_path = (kx < f && f <= king_file) || (king_file <= f && f < kx);
            if on_path {
                let sq = Coord::new(f, home);
                if !(sq == rook_sq || !is_occupied(s, sq)) {
                    proof {
                        assert(sq == square(f as int, home as int));
                        assert(on_rank_path(kx as int, king_file as int, f as int));
                        lemma_castle_king_path_blocked(*self, x as int, f as int);
                    }
                    return false;
                }
                if is_attacked_by(&lifted, sq, c.opposite()) {
                    proof {
                        assert(sq == square(f as int, home as int));
                        assert(on_rank_path(kx as int, king_file as int, f as int));
                        lemma_castle_king_path_blocked(*self, x as int, f as int);
                    }
                    return false;
                }
            }
            f = f + 1;
        }
        let mut f: u8 = 0;
        while f < 8
            invariant
                self.wf(),
                *s == self.pieces,
                0 <= f <= 8,
                x < 8,
                home < 8,
                home == home_rank_of(c),
                rook_file == castle_rook_file(kx as int, x as int),
                king == self.pieces@[king_slot(c)]->Some_0,
                king.position.x == kx,
                c == self.current_player,
                forall|g: int| 0 <= g < f && on_rank_path(x as int, rook_file as int, g) ==> (
                    square(g, home as int) == king.position || !occupied(s@, #[trigger] square(g, home as int))),
            decreases 8 - f,
        {
            let on_path = (x < f && f <= rook_file) || (rook_file <= f && f < x);
            if on_path {
                let sq = Coord::new(f, home);
                if !(sq == king.position || !is_occupied(s, sq)) {
                    proof {
                        assert(sq == square(f as int, home as int));
                        assert(on_rank_path(x as int, rook_file as int, f as int));
                        lemma_castle_rook_path_blocked(*self, x as int, f as int);
                    }
                    return false;
                }
            }
            f = f + 1;
        }
        proof {
            assert(index_at(s@, rook_sq)->Some_0 == ri);
        }
        true
    }

    /// The move record of castling with the rook on file `x`.
    pub fn castle_move_exec(&self, x: u8) -> (r: Move)
        requires
            self.wf(),
            x < 8,
            castle_legal(*self, x as int),
        ensures
            r == castle_move(*self, x as int),
    {
        let c = self.current_player;
        let home = crate::coord::home_rank(c);
        let k: u8 = match c {
            Color::White => 0,
            Color::Black => 16,
        };
        let king = self.pieces[k as usize].unwrap();
        let (ri, _) = self.piece_on(Coord::new(x, home)).unwrap();
        let (king_file, rook_file): (u8, u8) = if king.position.x < x {
            (6, 5)
        } else {
            (2, 3)
        };
        Move {
            movement: SimpleMove {
                index: PieceIndex(k),
                destination: Coord::new(king_file, home),
                capture: None,
            },
            castling_rook: Some(
                SimpleMove {
                    index: PieceIndex(ri as u8),
                    destination: Coord::new(rook_file, home),
                    capture: None,
                },
            ),
            promotion: None,
            en_passant_target: None,
            castling_right: self.castling_right.to_cleared(c),
        }
    }

    /// All legal castling moves.
    fn castling_moves(&self) -> (r: Vec<Move>)
        requires
            self.wf(),
        ensures
            forall|m: Move| r@.contains(m) <==> exists|x: int| castle_legal(*self, x) && m == #[trigger] castle_move(*self, x),
            r@.no_duplicates(),
            forall|k: int| 0 <= k < r@.len() ==> (#[trigger] r@[k]).castling_rook is Some,
    {
        let mut r: Vec<Move> = Vec::new();
        let mut x: u8 = 0;
        while x < 8
            invariant
                self.wf(),
                0 <= x <= 8,
                forall|m: Move| r@.contains(m) <==> exists|x2: int| 0 <= x2 < x && castle_legal(*self, x2) && m == #[trigger] castle_move(*self, x2),
                r@.no_duplicates(),
                forall|k: int|
                    0 <= k < r@.len() ==> exists|x2: int|
                        0 <= x2 < x && castle_legal(*self, x2) && #[trigger] r@[k] == castle_move(*self, x2),
            decreases 8 - x,
        {
            let ghost old_r = r@;
            if self.castle_legal_exec(x) {
                let m = self.castle_move_exec(x);
                r.push(m);
                proof {
                    assert forall|a: int, b: int|
                        0 <= a < r@.len() && 0 <= b < r@.len() && a != b implies r@[a] != r@[b] by {
                        if a < old_r.len() && b < old_r.len() {
                            assert(r@[a] == old_r[a] && r@[b] == old_r[b]);
                        } else {
                            let k = if a < old_r.len() { a } else { b };
                            assert(r@[k] == old_r[k]);
                            let x2 = choose|x2: int| 0 <= x2 < x && castle_legal(*self, x2) && #[trigger] old_r[k] == castle_move(*self, x2);
                            lemma_castle_moves_differ(*self, x2, x as int);
                        }
                    }
                    assert forall|k: int| 0 <= k < r@.len() implies exists|x2: int|
                        0 <= x2 < x + 1 && castle_legal(*self, x2) && #[trigger] r@[k] == castle_move(*self, x2) by {
                        if k < old_r.len() {
                            assert(r@[k] == old_r[k]);
                            let x2 = choose|x2: int| 0 <= x2 < x && castle_legal(*self, x2) && #[trigger] old_r[k] == castle_move(*self, x2);
                            assert(0 <= x2 < x + 1 && castle_legal(*self, x2) && r@[k] == castle_move(*self, x2));
                        } else {
                            assert(r@[k] == castle_move(*self, x as int));
                        }
                    }
                }
            } else {
                proof {
                    assert forall|k: int| 0 <= k < r@.len() implies exists|x2: int|
                        0 <= x2 < x + 1 && castle_legal(*self, x2) && #[trigger] r@[k] == castle_move(*self, x2) by {
                        let x2 = choose|x2: int| 0 <= x2 < x && castle_legal(*self, x2) && #[trigger] r@[k] == castle_move(*self, x2);
                        assert(0 <= x2 < x + 1 && castle_legal(*self, x2) && r@[k] == castle_move(*self, x2));
                    }
                }
            }
            proof {
                assert forall|m: Move| r@.contains(m) <==> exists|x2: int| 0 <= x2 < x + 1 && castle_legal(*self, x2) && m == #[trigger] castle_move(*self, x2) by {
                    if r@ != old_r {
                        lemma_contains_push(old_r, castle_move(*self, x as int), m);
                    }
                    if exists|x2: int| 0 <= x2 < x + 1 && castle_legal(*self, x2) && m == #[trigger] castle_move(*self, x2) {
                        let x2 = choose|x2: int| 0 <= x2 < x + 1 && castle_legal(*self, x2) && m == #[trigger] castle_move(*self, x2);
                        if x2 < x {
                            assert(old_r.contains(m));
                        }
                    }
                }
            }
            x = x + 1;
        }
        r
    }
}


impl Board {
    /// `Some(true)` when `color` has only its king, `Some(false)` when it has
    /// its king and a lone knight or same-colored bishops, `None` otherwise.
    fn one_side_is_dead(&self, color: Color) -> (r: Option<bool>)
        requires
            self.wf(),
        ensures
            r == (if lone_king(self.pieces@, color) {
                Some(true)
            } else if minor_only(self.pieces@, color) {
                Some(false)
            } else {
                None
            }),
    {
        let ghost s = self.pieces@;
        let base: usize = match color {
            Color::White => 0,
            Color::Black => 16,
        };
        // 0: nothing found yet, 1: one knight, 2: bishops on one square color
        let mut state: u8 = 0;
        let mut shade = Color::White;
        let mut witness: usize = 0;
        let mut i: usize = base + 1;
        proof {
            assert forall|j: int| #[trigger] non_king(s, color, j) implies base + 1 <= j < base + 16 by {
                assert(s[j] is Some);
            }
        }
        while i < base + 16
            invariant
                self.wf(),
                s == self.pieces@,
                base == king_slot(color),
                base + 1 <= i <= base + 16,
                forall|j: int| #[trigger] non_king(s, color, j) ==> base + 1 <= j < base + 16,
                state <= 2,
                state == 0 ==> forall|j: int| base + 1 <= j < i ==> !#[trigger] non_king(s, color, j),
                state == 1 ==> base + 1 <= witness < i && non_king(s, color, witness as int)
                    && s[witness as int]->Some_0.piece.piece == PieceKind::Knight
                    && forall|j: int| base + 1 <= j < i && j != witness ==> !#[trigger] non_king(s, color, j),
                state == 2 ==> base + 1 <= witness < i && non_king(s, color, witness as int)
                    && s[witness as int]->Some_0.piece.piece == PieceKind::Bishop
                    && shade == s[witness as int]->Some_0.position.shade()
                    && forall|j: int| base + 1 <= j < i && #[trigger] non_king(s, color, j) ==>
                        s[j]->Some_0.piece.piece == PieceKind::Bishop && s[j]->Some_0.position.shade() == shade,
            decreases base + 16 - i,
        {
            match self.pieces[i] {
                Some(p) => {
                    assert(non_king(s, color, i as int));
                    match p.piece.piece {
                        PieceKind::Knight => {
                            if state == 0 {
                                state = 1;
                                witness = i;
                            } else {
                                proof {
                                    assert(!lone_king(s, color));
                                    assert(!minor_only(s, color)) by {
                                        if exists|k: int| #[trigger] non_king(s, color, k) && s[k]->Some_0.piece.piece == PieceKind::Knight && (
                                            forall|j: int| j != k ==> !#[trigger] non_king(s, color, j)) {
                                            let k = choose|k: int| #[trigger] non_king(s, color, k) && s[k]->Some_0.piece.piece == PieceKind::Knight && (
                                                forall|j: int| j != k ==> !#[trigger] non_king(s, color, j));
                                            if k == i {
                                                assert(non_king(s, color, witness as int));
                                            } else {
                                                assert(non_king(s, color, i as int));
                                            }
                                        }
                                        if exists|k: int| #[trigger] non_king(s, color, k) && s[k]->Some_0.piece.piece == PieceKind::Bishop && (
                                            forall|j: int| #[trigger] non_king(s, color, j) ==> s[j]->Some_0.piece.piece == PieceKind::Bishop
                                                && s[j]->Some_0.position.shade() == s[k]->Some_0.position.shade()) {
                                            let k = choose|k: int| #[trigger] non_king(s, color, k) && s[k]->Some_0.piece.piece == PieceKind::Bishop && (
                                                forall|j: int| #[trigger] non_king(s, color, j) ==> s[j]->Some_0.piece.piece == PieceKind::Bishop
                                                    && s[j]->Some_0.position.shade() == s[k]->Some_0.position.shade());
                                            assert(non_king(s, color, i as int));
                                        }
                                    }
                                }
                                return None;
                            }
                        },
                        PieceKind::Bishop => {
                            let sh = p.position.color();
                            if state == 0 {
                                state = 2;
                                shade = sh;
                                witness = i;
                            } else if state == 2 && shade == sh {
                            } else {
                                proof {
                                    assert(!lone_king(s, color));
                                    assert(!minor_only(s, color)) by {
                                        if exists|k: int| #[trigger] non_king(s, color, k) && s[k]->Some_0.piece.piece == PieceKind::Knight && (
                                            forall|j: int| j != k ==> !#[trigger] non_king(s, color, j)) {
                                            let k = choose|k: int| #[trigger] non_king(s, color, k) && s[k]->Some_0.piece.piece == PieceKind::Knight && (
                                                forall|j: int| j != k ==> !#[trigger] non_king(s, color, j));
                                            if k == i {
                                            } else {
                                                assert(non_king(s, color, i as int));
                                            }
                                        }
                                        if exists|k: int| #[trigger] non_king(s, color, k) && s[k]->Some_0.piece.piece == PieceKind::Bishop && (
                                            forall|j: int| #[trigger] non_king(s, color, j) ==> s[j]->Some_0.piece.piece == PieceKind::Bishop
                                                && s[j]->Some_0.position.shade() == s[k]->Some_0.position.shade()) {
                                            let k = choose|k: int| #[trigger] non_king(s, color, k) && s[k]->Some_0.piece.piece == PieceKind::Bishop && (
                                                forall|j: int| #[trigger] non_king(s, color, j) ==> s[j]->Some_0.piece.piece == PieceKind::Bishop
                                                    && s[j]->Some_0.position.shade() == s[k]->Some_0.position.shade());
                                            assert(non_king(s, color, i as int));
                                            assert(non_king(s, color, witness as int));
                                        }
                                    }
                                }
                                return None;
                            }
                        },
                        _ => {
                            proof {
                                assert(!lone_king(s, color));
                                assert(!minor_only(s, color)) by {
                                    if exists|k: int| #[trigger] non_king(s, color, k) && s[k]->Some_0.piece.piece == PieceKind::Knight && (
                                        forall|j: int| j != k ==> !#[trigger] non_king(s, color, j)) {
                                        let k = choose|k: int| #[trigger] non_king(s, color, k) && s[k]->Some_0.piece.piece == PieceKind::Knight && (
                                            forall|j: int| j != k ==> !#[trigger] non_king(s, color, j));
                                        if k != i {
                                            assert(non_king(s, color, i as int));
                                        }
                                    }
                                    if exists|k: int| #[trigger] non_king(s, color, k) && s[k]->Some_0.piece.piece == PieceKind::Bishop && (
                                        forall|j: int| #[trigger] non_king(s, color, j) ==> s[j]->Some_0.piece.piece == PieceKind::Bishop
                                            && s[j]->Some_0.position.shade() == s[k]->Some_0.position.shade()) {
                                        assert(non_king(s, color, i as int));
                                    }
                                }
                            }
                            return None;
                        },
                    }
                },
                None => {
                    assert(!non_king(s, color, i as int));
                },
            }
            i = i + 1;
        }
        if state == 0 {
            proof {
                assert forall|j: int| !#[trigger] non_king(s, color, j) by {
                }
            }
            Some(true)
        } else {
            proof {
                assert(!lone_king(s, color)) by {
                    assert(non_king(s, color, witness as int));
                }
                if state == 1 {
                    assert forall|j: int| j != witness implies !#[trigger] non_king(s, color, j) by {
                    }
                    assert(non_king(s, color, witness as int) && s[witness as int]->Some_0.piece.piece == PieceKind::Knight && (
                        forall|j: int| j != witness ==> !#[trigger] non_king(s, color, j)));
                } else {
                    assert(non_king(s, color, witness as int) && s[witness as int]->Some_0.piece.piece == PieceKind::Bishop && (
                        forall|j: int| #[trigger] non_king(s, color, j) ==> s[j]->Some_0.piece.piece == PieceKind::Bishop
                            && s[j]->Some_0.position.shade() == s[witness as int]->Some_0.position.shade()));
                }
            }
            Some(false)
        }
    }

    /// Whether the position is dead: no sequence of moves can end in checkmate
    /// (judged by the material left, as `dead_position` says).
    pub fn is_dead(&self) -> (r: bool)
        requires
            self.wf(),
        ensures
            r == dead_position(self.pieces@),
    {
        match self.one_side_is_dead(Color::White) {
            Some(false) => self.one_side_is_dead(Color::Black) == Some(true),
            Some(true) => self.one_side_is_dead(Color::Black).is_some(),
            None => false,
        }
    }

    /// Whether the side to move is in check.
    pub fn is_in_check(&self) -> (r: bool)
        requires
            self.wf(),
        ensures
            r == in_check(self.pieces@, self.current_player),
    {
        let k: usize = match self.current_player {
            Color::White => 0,
            Color::Black => 16,
        };
        let king = self.pieces[k].unwrap();
        is_attacked_by(&self.pieces, king.position, self.current_player.opposite())
    }

    /// The legal moves of the side to move, or how the game has ended: a draw
    /// for a dead position or stalemate, a win for the other side on checkmate.
    pub fn valid_moves(&self) -> (r: Result<Vec<Move>, EndState>)
        requires
            self.wf(),
        ensures
            dead_position(self.pieces@) ==> r == Err::<Vec<Move>, EndState>(EndState::Draw),
            !dead_position(self.pieces@) ==> match r {
                Ok(v) => v@.len() > 0 && forall|m: Move| v@.contains(m) <==> legal(*self, m),
                Err(e) => !has_legal_move(*self) && e == (if in_check(self.pieces@, self.current_player) {
                    EndState::Win(self.current_player.other())
                } else {
                    EndState::Draw
                }),
            },
            r matches Ok(v) ==> v@.no_duplicates(),
    {
        if self.is_dead() {
            return Err(EndState::Draw);
        }
        let mut moves = self.plain_moves();
        let mut castles = self.castling_moves();
        let ghost a = moves@;
        let ghost c = castles@;
        moves.append(&mut castles);
        proof {
            assert forall|i: int, j: int| 0 <= i < a.len() && 0 <= j < c.len() implies a[i] != c[j] by {
                assert(a[i].castling_rook is None);
                assert(c[j].castling_rook is Some);
            }
            vstd::seq_lib::lemma_no_dup_in_concat(a, c);
            assert forall|m: Move| moves@.contains(m) <==> legal(*self, m) by {
                lemma_contains_concat(a, c, m);
                if a.contains(m) {
                    let (i, d) = choose|i: int, d: Coord| 0 <= i < 32 && d.wf() && #[trigger] move_of(*self, i, d, m);
                    let p = choose|p: Option<PieceKind>| plain_legal(*self, i, d, p) && m == #[trigger] plain_move(*self, i, d, p);
                    assert(plain_legal(*self, i, d, p) && m == plain_move(*self, i, d, p));
                }
                if exists|i: int, d: Coord, promo: Option<PieceKind>|
                    plain_legal(*self, i, d, promo) && m == #[trigger] plain_move(*self, i, d, promo) {
                    let (i, d, p) = choose|i: int, d: Coord, promo: Option<PieceKind>|
                        plain_legal(*self, i, d, promo) && m == #[trigger] plain_move(*self, i, d, promo);
                    assert(move_of(*self, i, d, m));
                    assert(a.contains(m));
                }
            }
        }
        if moves.len() > 0 {
            Ok(moves)
        } else {
            proof {
                assert forall|m: Move| !#[trigger] legal(*self, m) by {
                    if legal(*self, m) {
                        assert(moves@.contains(m));
                    }
                }
            }
            if self.is_in_check() {
                Err(EndState::Win(self.current_player.opposite()))
            } else {
                Err(EndState::Draw)
            }
        }
    }
}


/// Where a promotion piece stands in the order the moves are listed.
pub open spec fn promotion_rank(p: PieceKind) -> int {
    match p {
        PieceKind::Queen => 0,
        PieceKind::Rook => 1,
        PieceKind::Bishop => 2,
        PieceKind::Knight => 3,
        _ => 4,
    }
}

/// Castling with rooks on two different files moves two different rooks.
proof fn lemma_castle_moves_differ(b: Board, x1: int, x2: int)
    requires
        b.wf(),
        castle_legal(b, x1),
        castle_legal(b, x2),
        x1 != x2,
    ensures
        castle_move(b, x1) != castle_move(b, x2),
{
    let s = b.pieces@;
    let home = home_rank_of(b.current_player);
    let r1 = index_at(s, square(x1, home))->Some_0;
    let r2 = index_at(s, square(x2, home))->Some_0;
    assert(occ(s, square(x1, home), r1));
    assert(occ(s, square(x2, home), r2));
    assert(square(x1, home).x != square(x2, home).x);
    assert(r1 != r2);
    assert(castle_move(b, x1).castling_rook->Some_0.index != castle_move(b, x2).castling_rook->Some_0.index);
}

/// A move can be played on the slots: its piece is there, the slot it
/// captures is in range, and the castling rook is there once the capture is
/// taken away.
pub open spec fn move_applicable(s: Slots, m: Move) -> bool {
    &&& m.movement.index.0 < 32
    &&& s[m.movement.index.0 as int] is Some
    &&& (m.movement.capture matches Some(c) ==> c.0 < 32)
    &&& (m.castling_rook matches Some(rk) ==> rk.index.0 < 32 && m.movement.capture != Some(rk.index)
        && (rk.index == m.movement.index || s[rk.index.0 as int] is Some))
}

/// The slots of a legal move: its piece and the castling rook are there, the
/// slot it captures is in range, and castling moves two different pieces
/// and captures nothing.
pub open spec fn move_fits_slots(s: Slots, m: Move) -> bool {
    &&& m.movement.index.0 < 32
    &&& s[m.movement.index.0 as int] is Some
    &&& (m.movement.capture matches Some(c) ==> c.0 < 32)
    &&& (m.castling_rook matches Some(rk) ==> rk.index.0 < 32 && s[rk.index.0 as int] is Some
        && rk.index != m.movement.index && m.movement.capture is None)
}

/// Playing a legal move keeps the board well formed: every piece stays on the
/// board in a slot that fits it (a promoted pawn keeps its slot), no two
/// pieces share a square, both kings remain, and the new en passant target is
/// an empty square.
pub proof fn lemma_legal_move_keeps_wf(b: Board, m: Move)
    requires
        b.wf(),
        legal(b, m),
    ensures
        move_fits_slots(b.pieces@, m),
        slots_wf(apply_slots(b.pieces@, b.current_player, m)),
        m.en_passant_target matches Some(t) ==> t.wf() && !occupied(
            apply_slots(b.pieces@, b.current_player, m),
            t,
        ),
{
    let s = b.pieces@;
    let c = b.current_player;
    let after = apply_slots(s, c, m);
    if exists|i: int, d: Coord, promo: Option<PieceKind>|
        plain_legal(b, i, d, promo) && m == #[trigger] plain_move(b, i, d, promo) {
        let (i, d, promo) = choose|i: int, d: Coord, promo: Option<PieceKind>|
            plain_legal(b, i, d, promo) && m == #[trigger] plain_move(b, i, d, promo);
        let p = s[i]->Some_0;
        assert(pseudo_legal(b, i, d, promo));
        let cap = capture_of(b, i, d);
        if let Some(ci) = cap {
            assert(s[ci] is Some);
            assert(ci != i) by {
                assert(s[ci]->Some_0.piece.color != c);
            }
            assert(slot_fits(ci, slot_color(ci), s[ci]->Some_0.piece.piece));
        }
        assert(move_fits_slots(s, m));
        // every remaining piece is placed as before, except the mover
        assert forall|j: int| 0 <= j < 32 && #[trigger] after[j] is Some implies after[j]->Some_0.position.wf()
            && after[j]->Some_0.piece.color == slot_color(j) && slot_fits(j, slot_color(j), after[j]->Some_0.piece.piece) by {
            if j == i {
                if p.piece.piece == PieceKind::Pawn {
                    assert(slot_fits(i, slot_color(i), PieceKind::Pawn));
                }
            } else {
                assert(s[j] is Some);
            }
        }
        assert forall|j: int, k: int|
            0 <= j < 32 && 0 <= k < 32 && j != k && #[trigger] after[j] is Some && #[trigger] after[k] is Some
                implies after[j]->Some_0.position != after[k]->Some_0.position by {
            if j == i || k == i {
                let o = if j == i { k } else { j };
                assert(s[o] is Some);
                if s[o]->Some_0.position == d {
                    assert(occ(s, d, o));
                    lemma_index_at(s, d, o);
                    let ep_case = p.piece.piece == PieceKind::Pawn && pawn_attacks(p.position, d, c)
                        && b.en_passant_target == Some(d);
                    if ep_case {
                        assert(!occupied(s, d));
                    } else {
                        assert(cap == Some(o));
                    }
                }
            } else {
                assert(s[j] is Some && s[k] is Some);
            }
        }
        assert(after[0] is Some) by {
            if let Some(ci) = cap {
                assert(ci != 0) by {
                    if ci == 0 {
                        assert(slot_fits(0, slot_color(0), s[0]->Some_0.piece.piece));
                    }
                }
            }
        }
        assert(after[16] is Some) by {
            if let Some(ci) = cap {
                assert(ci != 16) by {
                    if ci == 16 {
                        assert(slot_fits(16, slot_color(16), s[16]->Some_0.piece.piece));
                    }
                }
            }
        }
        if let Some(t) = m.en_passant_target {
            let front = pawn_front(p.position, c);
            assert(t == front);
            assert(!occupied(s, front));
            assert forall|j: int| !#[trigger] occ(after, t, j) by {
                if occ(after, t, j) {
                    if j != i {
                        assert(occ(s, t, j));
                    }
                }
            }
        }
    } else {
        let x = choose|x: int| castle_legal(b, x) && m == #[trigger] castle_move(b, x);
        let home = home_rank_of(c);
        let ks = king_slot(c);
        let king = s[ks]->Some_0;
        let rook_sq = square(x, home);
        let r = index_at(s, rook_sq)->Some_0;
        assert(occ(s, rook_sq, r));
        assert(r != ks) by {
            assert(s[ks]->Some_0.piece.piece == PieceKind::King) by {
                assert(slot_fits(ks, slot_color(ks), s[ks]->Some_0.piece.piece));
            }
        }
        let kf = castle_king_file(king.position.x as int, x);
        let rf = castle_rook_file(king.position.x as int, x);
        assert(move_fits_slots(s, m));
        assert forall|j: int| 0 <= j < 32 && #[trigger] after[j] is Some implies after[j]->Some_0.position.wf()
            && after[j]->Some_0.piece.color == slot_color(j) && slot_fits(j, slot_color(j), after[j]->Some_0.piece.piece) by {
            assert(s[j] is Some);
        }
        assert forall|j: int, k: int|
            0 <= j < 32 && 0 <= k < 32 && j != k && #[trigger] after[j] is Some && #[trigger] after[k] is Some
                implies after[j]->Some_0.position != after[k]->Some_0.position by {
            assert(s[j] is Some && s[k] is Some);
            if (j == ks && k == r) || (j == r && k == ks) {
            } else if j == ks || k == ks {
                let o = if j == ks { k } else { j };
                let kd = square(kf, home);
                if s[o]->Some_0.position == kd {
                    assert(occ(s, kd, o));
                    if king.position.x as int == kf {
                        assert(kd == king.position);
                    } else {
                        assert(on_rank_path(king.position.x as int, kf, kf));
                        assert(kd == rook_sq || !occupied(s, square(kf, home)));
                        if kd == rook_sq {
                            lemma_index_at(s, rook_sq, o);
                        }
                    }
                }
            } else if j == r || k == r {
                let o = if j == r { k } else { j };
                let rd = square(rf, home);
                if s[o]->Some_0.position == rd {
                    assert(occ(s, rd, o));
                    if x == rf {
                        assert(rd == rook_sq);
                        lemma_index_at(s, rook_sq, o);
                    } else {
                        assert(on_rank_path(x, rf, rf));
                        assert(rd == king.position || !occupied(s, square(rf, home)));
                    }
                }
            }
        }
    }
}

/// After a legal move the moved piece stands on its destination, promoted
/// when the move says so; and, unless the move castles, its square of origin
/// is left empty.
pub proof fn lemma_legal_move_lands(b: Board, m: Move)
    requires
        b.wf(),
        legal(b, m),
    ensures
        ({
            let s = b.pieces@;
            let after = apply_slots(s, b.current_player, m);
            let p = s[m.movement.index.0 as int]->Some_0;
            &&& piece_at(after, m.movement.destination) == Some(
                ColoredPieceKind {
                    color: b.current_player,
                    piece: match m.promotion {
                        Some(k) => k,
                        None => p.piece.piece,
                    },
                },
            )
            &&& m.castling_rook is None ==> piece_at(after, p.position) is None
        }),
{
    let s = b.pieces@;
    let c = b.current_player;
    let after = apply_slots(s, c, m);
    let i = m.movement.index.0 as int;
    let p = s[i]->Some_0;
    let d = m.movement.destination;
    lemma_legal_move_keeps_wf(b, m);
    if exists|i: int, d: Coord, promo: Option<PieceKind>|
        plain_legal(b, i, d, promo) && m == #[trigger] plain_move(b, i, d, promo) {
        let (i2, d2, promo) = choose|i: int, d: Coord, promo: Option<PieceKind>|
            plain_legal(b, i, d, promo) && m == #[trigger] plain_move(b, i, d, promo);
        assert(pseudo_legal(b, i2, d2, promo));
        assert(i2 == i) by {
            assert(0 <= i2 < 32);
        }
        if let Some(ci) = capture_of(b, i, d) {
            assert(s[ci]->Some_0.piece.color != c);
            assert(ci != i);
        }
        assert(p.piece.color == c) by {
            assert(s[i] is Some);
        }
        assert(after[i] == Some(Piece {
            piece: ColoredPieceKind { color: c, piece: match m.promotion {
                Some(k) => k,
                None => p.piece.piece,
            } },
            position: d,
        }));
        assert(occ(after, d, i));
        lemma_index_at(after, d, i);
        assert(d != p.position) by {
            assert(reaches(b, i, d));
        }
        assert(!occupied(after, p.position)) by {
            if occupied(after, p.position) {
                let j = choose|j: int| #[trigger] occ(after, p.position, j);
                assert(j != i);
                assert(s[j] is Some && s[j] == after[j]);
                assert(s[i] is Some);
            }
        }
    } else {
        let x = choose|x: int| castle_legal(b, x) && m == #[trigger] castle_move(b, x);
        assert(m.castling_rook is Some);
        assert(i == king_slot(c));
        assert(after[i] is Some && after[i]->Some_0.position == d);
        assert(after[i]->Some_0.piece == p.piece);
        assert(p.piece.color == c) by {
            assert(s[i] is Some);
        }
        assert(occ(after, d, i));
        lemma_index_at(after, d, i);
    }
}

/// Something that names a move on a board: a move record, or its text.
pub trait Moveable {
    /// Whether this names a move on the board.
    spec fn moveable_on(&self, board: Board) -> bool;

    /// The move this names on the board.
    spec fn move_on(&self, board: Board) -> Move;

    /// The move this names on the board.
    fn as_move(&self, board: &Board) -> (m: Move)
        requires
            board.wf(),
            self.moveable_on(*board),
        ensures
            m == self.move_on(*board),
    ;
}

impl Moveable for Move {
    open spec fn moveable_on(&self, board: Board) -> bool {
        true
    }

    open spec fn move_on(&self, board: Board) -> Move {
        *self
    }

    fn as_move(&self, board: &Board) -> (m: Move) {
        *self
    }
}

impl Board {
    /// Plays a move: the piece goes to its destination (promoted when the
    /// move says so), the captured piece leaves, the castling rook moves, and
    /// the turn, castling rights and en passant target change. A legal move
    /// keeps the board well formed; played on a board that passes `validate`,
    /// it leaves one that passes it too, but for castling where the king
    /// keeps its square, which can leave the king attacked once the rook has
    /// left.
    pub fn move_piece<M: Moveable>(&mut self, movement: &M)
        requires
            old(self).wf(),
            movement.moveable_on(*old(self)),
            move_applicable(old(self).pieces@, movement.move_on(*old(self))),
        ensures
            final(self).pieces@ == apply_slots(
                old(self).pieces@,
                old(self).current_player,
                movement.move_on(*old(self)),
            ),
            final(self).current_player == old(self).current_player.other(),
            final(self).castling_right == movement.move_on(*old(self)).castling_right,
            final(self).en_passant_target == movement.move_on(*old(self)).en_passant_target,
            legal(*old(self), movement.move_on(*old(self))) ==> final(self).wf(),
            legal(*old(self), movement.move_on(*old(self))) && validation(*old(self)) == Ok::<(), InvalidBoard>(())
                ==> validation(*final(self)) == Ok::<(), InvalidBoard>(()) || ({
                let m = movement.move_on(*old(self));
                &&& m.castling_rook is Some
                &&& m.movement.destination == old(self).pieces@[king_slot(old(self).current_player)]->Some_0.position
                &&& validation(*final(self)) == Err::<(), InvalidBoard>(InvalidBoard::NonPlayerInCheck)
            }),
    {
        let ghost before = *self;
        let m = movement.as_move(self);
        proof {
            if legal(*self, m) {
                lemma_legal_move_keeps_wf(*self, m);
            }
        }
        self.pieces = apply_to_slots(&self.pieces, self.current_player, &m);
        self.current_player = self.current_player.opposite();
        self.castling_right = m.castling_right;
        self.en_passant_target = m.en_passant_target;
        proof {
            if legal(before, m) && validation(before) == Ok::<(), InvalidBoard>(()) {
                if m.castling_rook is None {
                    lemma_plain_move_keeps_validation(before, m, *self);
                } else {
                    lemma_castle_keeps_validation(before, m, *self);
                }
            }
        }
    }

    /// A copy of the board with a move played, as `move_piece` plays it.
    pub fn clone_and_move<M: Moveable>(&self, movement: &M) -> (r: Board)
        requires
            self.wf(),
            movement.moveable_on(*self),
            move_applicable(self.pieces@, movement.move_on(*self)),
        ensures
            r.pieces@ == apply_slots(self.pieces@, self.current_player, movement.move_on(*self)),
            r.current_player == self.current_player.other(),
            r.castling_right == movement.move_on(*self).castling_right,
            r.en_passant_target == movement.move_on(*self).en_passant_target,
            legal(*self, movement.move_on(*self)) ==> r.wf(),
    {
        let mut new = *self;
        new.move_piece(movement);
        new
    }
}

} // verus!
