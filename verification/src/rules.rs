//! The rules of chess as specifications over a list of 32 piece slots.
use vstd::prelude::*;
use crate::castling_right::CastlingRight;
use crate::color::Color;
use crate::coord::{
    abs_int, home_rank_of, on_board, pawn_dir, pawn_home_rank_of, promotion_rank_of, square, Coord,
};
use crate::piece::{ColoredPieceKind, Piece, PieceKind};
use crate::board::{Board, Move, PieceIndex, SimpleMove};

verus! {

/// Piece slots: 32 entries, white in 0..16 and black in 16..32.
pub type Slots = Seq<Option<Piece>>;

/// The side that owns slot `i`.
pub open spec fn slot_color(i: int) -> Color {
    if i < 16 {
        Color::White
    } else {
        Color::Black
    }
}

/// The slot of a side's king.
pub open spec fn king_slot(color: Color) -> int {
    match color {
        Color::White => 0,
        Color::Black => 16,
    }
}

/// The slots reserved for each kind of piece of a side (as a half-open range):
/// king, queen, two rooks, two bishops, two knights, then eight pawns.
pub open spec fn kind_range(color: Color, kind: PieceKind) -> (int, int) {
    let base = if color == Color::White {
        0int
    } else {
        16int
    };
    match kind {
        PieceKind::King => (base, base + 1),
        PieceKind::Queen => (base + 1, base + 2),
        PieceKind::Rook => (base + 2, base + 4),
        PieceKind::Bishop => (base + 4, base + 6),
        PieceKind::Knight => (base + 6, base + 8),
        PieceKind::Pawn => (base + 8, base + 16),
    }
}

/// Whether slot `i` may hold a piece of this kind: its own range, or (for a
/// promoted piece) the pawn range.
pub open spec fn slot_fits(i: int, color: Color, kind: PieceKind) -> bool {
    let (lo, hi) = kind_range(color, kind);
    let (plo, phi) = kind_range(color, PieceKind::Pawn);
    (lo <= i < hi) || (kind != PieceKind::King && plo <= i < phi)
}

/// Whether slot `i` holds a piece standing on `sq`.
pub open spec fn occ(s: Slots, sq: Coord, i: int) -> bool {
    0 <= i < 32 && i < s.len() && s[i] is Some && s[i]->Some_0.position == sq
}

/// Whether some piece stands on `sq`.
pub open spec fn occupied(s: Slots, sq: Coord) -> bool {
    exists|i: int| #[trigger] occ(s, sq, i)
}

/// The slot of the piece on `sq`, if any.
pub open spec fn index_at(s: Slots, sq: Coord) -> Option<int> {
    if occupied(s, sq) {
        Some(choose|i: int| #[trigger] occ(s, sq, i))
    } else {
        None
    }
}

/// The piece on `sq`, if any.
pub open spec fn piece_at(s: Slots, sq: Coord) -> Option<ColoredPieceKind> {
    match index_at(s, sq) {
        Some(i) => Some(s[i]->Some_0.piece),
        None => None,
    }
}

/// The slots are well formed: 32 of them, every piece on the board and in a
/// slot that fits it, no two pieces on one square, and both kings present.
pub open spec fn slots_wf(s: Slots) -> bool {
    &&& s.len() == 32
    &&& forall|i: int|
        0 <= i < 32 && #[trigger] s[i] is Some ==> s[i]->Some_0.position.wf() && s[i]->Some_0.piece.color
            == slot_color(i) && slot_fits(i, slot_color(i), s[i]->Some_0.piece.piece)
    &&& forall|i: int, j: int|
        0 <= i < 32 && 0 <= j < 32 && i != j && #[trigger] s[i] is Some && #[trigger] s[j] is Some
            ==> s[i]->Some_0.position != s[j]->Some_0.position
    &&& s[0] is Some
    &&& s[16] is Some
}

/// Every piece in the 32 slots stands on the board.
pub open spec fn positions_wf(s: Slots) -> bool {
    &&& s.len() == 32
    &&& forall|i: int| 0 <= i < 32 && #[trigger] s[i] is Some ==> s[i]->Some_0.position.wf()
}

/// On well formed slots, the piece found on a square is the one that stands there.
pub proof fn lemma_index_at(s: Slots, sq: Coord, i: int)
    requires
        slots_wf(s),
        occ(s, sq, i),
    ensures
        index_at(s, sq) == Some(i),
{
    let j = choose|j: int| #[trigger] occ(s, sq, j);
    assert(occ(s, sq, j));
    if i != j {
        assert(s[i] is Some && s[j] is Some);
    }
}

/// Moves `a` by `k` steps toward `b` along one axis.
pub open spec fn along(a: int, b: int, k: int) -> int {
    if b > a {
        a + k
    } else if b < a {
        a - k
    } else {
        a
    }
}

/// The square `k` steps from `from` toward `to`.
pub open spec fn line_step(from: Coord, to: Coord, k: int) -> Coord {
    square(along(from.x as int, to.x as int, k), along(from.y as int, to.y as int, k))
}

/// Number of king steps between two squares on a line.
pub open spec fn distance(from: Coord, to: Coord) -> int {
    let dx = abs_int(to.x - from.x);
    let dy = abs_int(to.y - from.y);
    if dx > dy {
        dx
    } else {
        dy
    }
}

/// Every square strictly between `from` and `to` is empty.
pub open spec fn clear_path(s: Slots, from: Coord, to: Coord) -> bool {
    forall|k: int| 0 < k < distance(from, to) ==> !#[trigger] occupied(s, line_step(from, to, k))
}

/// `to` is on the same rank or file as `from`, and not `from` itself.
pub open spec fn straight(from: Coord, to: Coord) -> bool {
    (from.x == to.x) != (from.y == to.y)
}

/// `to` is on the same diagonal as `from`, and not `from` itself.
pub open spec fn diagonal(from: Coord, to: Coord) -> bool {
    abs_int(to.x - from.x) == abs_int(to.y - from.y) && from.x != to.x
}

/// `to` lies on a rank, file or diagonal through `from` (or is `from`).
pub open spec fn lined_up(from: Coord, to: Coord) -> bool {
    from.x == to.x || from.y == to.y || abs_int(to.x - from.x) == abs_int(to.y - from.y)
}

/// `to` is a knight jump away from `from`.
pub open spec fn knight_apart(from: Coord, to: Coord) -> bool {
    let dx = abs_int(to.x - from.x);
    let dy = abs_int(to.y - from.y);
    (dx == 1 && dy == 2) || (dx == 2 && dy == 1)
}

/// `to` is a king step away from `from`.
pub open spec fn king_apart(from: Coord, to: Coord) -> bool {
    abs_int(to.x - from.x) <= 1 && abs_int(to.y - from.y) <= 1 && from != to
}

/// A pawn of `color` on `from` attacks `to`.
pub open spec fn pawn_attacks(from: Coord, to: Coord, color: Color) -> bool {
    abs_int(to.x - from.x) == 1 && to.y - from.y == pawn_dir(color)
}

/// Whether the piece `p` attacks the square `t`.
pub open spec fn attacks(s: Slots, p: Piece, t: Coord) -> bool {
    let from = p.position;
    match p.piece.piece {
        PieceKind::Pawn => pawn_attacks(from, t, p.piece.color),
        PieceKind::Knight => knight_apart(from, t),
        PieceKind::King => king_apart(from, t),
        PieceKind::Bishop => diagonal(from, t) && clear_path(s, from, t),
        PieceKind::Rook => straight(from, t) && clear_path(s, from, t),
        PieceKind::Queen => (diagonal(from, t) || straight(from, t)) && clear_path(s, from, t),
    }
}

/// Slot `i` holds a piece of `color` that attacks `t`.
pub open spec fn attacker(s: Slots, t: Coord, color: Color, i: int) -> bool {
    0 <= i < 32 && s[i] is Some && s[i]->Some_0.piece.color == color && attacks(s, s[i]->Some_0, t)
}

/// Whether a piece of `color` attacks the square `t`.
pub open spec fn attacked_by(s: Slots, t: Coord, color: Color) -> bool {
    exists|i: int| #[trigger] attacker(s, t, color, i)
}

/// Whether the king of `color` is attacked.
pub open spec fn in_check(s: Slots, color: Color) -> bool {
    attacked_by(s, s[king_slot(color)]->Some_0.position, color.other())
}


/// The slots after a move is played by `mover`: the piece moves (and is
/// promoted), the captured piece leaves, and the castling rook moves.
pub open spec fn apply_slots(s: Slots, mover: Color, m: Move) -> Slots {
    let i = m.movement.index.0 as int;
    let p = s[i]->Some_0;
    let moved = Piece {
        piece: match m.promotion {
            Some(k) => ColoredPieceKind { color: mover, piece: k },
            None => p.piece,
        },
        position: m.movement.destination,
    };
    let s1 = s.update(i, Some(moved));
    let s2 = match m.movement.capture {
        Some(c) => s1.update(c.0 as int, None),
        None => s1,
    };
    match m.castling_rook {
        Some(r) => s2.update(
            r.index.0 as int,
            Some(Piece { piece: s2[r.index.0 as int]->Some_0.piece, position: r.destination }),
        ),
        None => s2,
    }
}

/// The square one step in front of `from` for a pawn of `color`.
pub open spec fn pawn_front(from: Coord, color: Color) -> Coord {
    square(from.x as int, from.y + pawn_dir(color))
}

/// Whether the piece in slot `i` can go to `d` by the way it moves
/// (ignoring what stands on `d` for pieces other than pawns, and king safety).
pub open spec fn reaches(b: Board, i: int, d: Coord) -> bool {
    let s = b.pieces@;
    let p = s[i]->Some_0;
    let from = p.position;
    let c = p.piece.color;
    match p.piece.piece {
        PieceKind::Knight => knight_apart(from, d),
        PieceKind::King => king_apart(from, d),
        PieceKind::Bishop => diagonal(from, d) && clear_path(s, from, d),
        PieceKind::Rook => straight(from, d) && clear_path(s, from, d),
        PieceKind::Queen => (diagonal(from, d) || straight(from, d)) && clear_path(s, from, d),
        PieceKind::Pawn => {
            ||| (d.x == from.x && d.y - from.y == pawn_dir(c) && !occupied(s, d))
            ||| (d.x == from.x && d.y - from.y == 2 * pawn_dir(c) && from.y == pawn_home_rank_of(c)
                && !occupied(s, d) && !occupied(s, pawn_front(from, c)))
            ||| (pawn_attacks(from, d, c) && (occupied(s, d) || b.en_passant_target == Some(d)))
        },
    }
}

/// The promotion choice fits the move: one of queen, rook, bishop or knight
/// for a pawn reaching its last rank, none otherwise.
pub open spec fn promotion_ok(b: Board, i: int, d: Coord, promo: Option<PieceKind>) -> bool {
    let p = b.pieces@[i]->Some_0;
    if p.piece.piece == PieceKind::Pawn && d.y == promotion_rank_of(p.piece.color) {
        promo == Some(PieceKind::Queen) || promo == Some(PieceKind::Rook) || promo == Some(
            PieceKind::Bishop,
        ) || promo == Some(PieceKind::Knight)
    } else {
        promo is None
    }
}

/// A move of the piece in slot `i` to `d` that follows how the piece moves,
/// does not land on a piece of its own side, captures neither a piece of its
/// own side nor a king, and names a fitting promotion.
pub open spec fn pseudo_legal(b: Board, i: int, d: Coord, promo: Option<PieceKind>) -> bool {
    let s = b.pieces@;
    &&& 0 <= i < 32
    &&& s[i] is Some
    &&& s[i]->Some_0.piece.color == b.current_player
    &&& d.wf()
    &&& reaches(b, i, d)
    &&& !(occupied(s, d) && piece_at(s, d)->Some_0.color == b.current_player)
    &&& (capture_of(b, i, d) matches Some(ci) ==> s[ci]->Some_0.piece.color != b.current_player
        && s[ci]->Some_0.piece.piece != PieceKind::King)
    &&& promotion_ok(b, i, d, promo)
}

/// The slot of the piece that the move of slot `i` to `d` captures: the pawn
/// behind the target for en passant, otherwise the piece on `d`.
pub open spec fn capture_of(b: Board, i: int, d: Coord) -> Option<int> {
    let s = b.pieces@;
    let p = s[i]->Some_0;
    let c = p.piece.color;
    if p.piece.piece == PieceKind::Pawn && pawn_attacks(p.position, d, c) && b.en_passant_target
        == Some(d) {
        index_at(s, pawn_front(d, c.other()))
    } else {
        index_at(s, d)
    }
}

/// Slot `j` holds a pawn of `color` that attacks `t`.
pub open spec fn pawn_attacker(s: Slots, t: Coord, color: Color, j: int) -> bool {
    0 <= j < 32 && s[j] is Some && s[j]->Some_0.piece == (ColoredPieceKind {
        color,
        piece: PieceKind::Pawn,
    }) && pawn_attacks(s[j]->Some_0.position, t, color)
}

/// The en passant target after the move: the square a pawn skipped in a
/// double step, when an enemy pawn could capture there.
pub open spec fn en_passant_after(b: Board, i: int, d: Coord) -> Option<Coord> {
    let s = b.pieces@;
    let p = s[i]->Some_0;
    let c = p.piece.color;
    if p.piece.piece == PieceKind::Pawn && d.x == p.position.x && d.y - p.position.y == 2
        * pawn_dir(c) {
        let mid = pawn_front(p.position, c);
        if exists|j: int| #[trigger] pawn_attacker(s, mid, c.other(), j) {
            Some(mid)
        } else {
            None
        }
    } else {
        None
    }
}

/// The castling rights after the move: a rook leaving its first rank gives
/// up its file, a king move gives up both, and capturing a rook on its first
/// rank takes away that rook's right.
pub open spec fn rights_after(b: Board, i: int, d: Coord) -> CastlingRight {
    let s = b.pieces@;
    let p = s[i]->Some_0;
    let c = p.piece.color;
    let base = if p.piece.piece == PieceKind::Rook && p.position.y == home_rank_of(c) {
        b.castling_right.removed(c, p.position.x as int)
    } else if p.piece.piece == PieceKind::King {
        b.castling_right.cleared(c)
    } else {
        b.castling_right
    };
    match capture_of(b, i, d) {
        Some(ci) => base.after_capture(s[ci]->Some_0),
        None => base,
    }
}

/// The move record of the piece in slot `i` going to `d`.
pub open spec fn plain_move(b: Board, i: int, d: Coord, promo: Option<PieceKind>) -> Move {
    Move {
        movement: SimpleMove {
            index: PieceIndex(i as u8),
            destination: d,
            capture: match capture_of(b, i, d) {
                Some(c) => Some(PieceIndex(c as u8)),
                None => None,
            },
        },
        castling_rook: None,
        promotion: promo,
        en_passant_target: en_passant_after(b, i, d),
        castling_right: rights_after(b, i, d),
    }
}

/// A legal move other than castling: it follows the piece's movement and
/// does not leave the mover's king attacked.
pub open spec fn plain_legal(b: Board, i: int, d: Coord, promo: Option<PieceKind>) -> bool {
    pseudo_legal(b, i, d, promo) && !in_check(
        apply_slots(b.pieces@, b.current_player, plain_move(b, i, d, promo)),
        b.current_player,
    )
}

/// File `f` lies on the way from file `a` to file `e`, `a` excluded and `e` included.
pub open spec fn on_rank_path(a: int, e: int, f: int) -> bool {
    (a < f && f <= e) || (e <= f && f < a)
}

/// The king's destination file when castling with the rook on file `x`.
pub open spec fn castle_king_file(king_x: int, x: int) -> int {
    if king_x < x {
        6
    } else {
        2
    }
}

/// The rook's destination file when castling with the rook on file `x`.
pub open spec fn castle_rook_file(king_x: int, x: int) -> int {
    if king_x < x {
        5
    } else {
        3
    }
}

/// Castling with the rook on file `x` is legal: the right is held, the king
/// stands on its first rank and is not in check, the rook is there, every
/// square the king and rook pass through or land on is empty (or holds the
/// other castling piece), and no square the king passes through or lands on
/// is attacked once king and rook are lifted from the board.
pub open spec fn castle_legal(b: Board, x: int) -> bool {
    let s = b.pieces@;
    let c = b.current_player;
    let home = home_rank_of(c);
    let king = s[king_slot(c)]->Some_0;
    let rook_sq = square(x, home);
    &&& 0 <= x < 8
    &&& b.castling_right.has(c, x)
    &&& king.position.y == home
    &&& king.position.x != x
    &&& !in_check(s, c)
    &&& occupied(s, rook_sq)
    &&& s[index_at(s, rook_sq)->Some_0]->Some_0.piece == (ColoredPieceKind {
        color: c,
        piece: PieceKind::Rook,
    })
    &&& forall|f: int|
        on_rank_path(king.position.x as int, castle_king_file(king.position.x as int, x), f) ==> (
        square(f, home) == rook_sq || !occupied(s, #[trigger] square(f, home))) && !attacked_by(
            s.update(king_slot(c), None).update(index_at(s, rook_sq)->Some_0, None),
            square(f, home),
            c.other(),
        )
    &&& forall|f: int|
        on_rank_path(x, castle_rook_file(king.position.x as int, x), f) ==> (square(f, home)
            == king.position || !occupied(s, #[trigger] square(f, home)))
}

/// Castling is illegal when a square on the king's way is blocked or attacked.
pub proof fn lemma_castle_king_path_blocked(b: Board, x: int, f: int)
    requires
        on_rank_path(
            b.pieces@[king_slot(b.current_player)]->Some_0.position.x as int,
            castle_king_file(b.pieces@[king_slot(b.current_player)]->Some_0.position.x as int, x),
            f,
        ),
        !((square(f, home_rank_of(b.current_player)) == square(x, home_rank_of(b.current_player))
            || !occupied(b.pieces@, square(f, home_rank_of(b.current_player)))) && !attacked_by(
            b.pieces@.update(king_slot(b.current_player), None).update(
                index_at(b.pieces@, square(x, home_rank_of(b.current_player)))->Some_0,
                None,
            ),
            square(f, home_rank_of(b.current_player)),
            b.current_player.other(),
        )),
    ensures
        !castle_legal(b, x),
{
}

/// Castling is illegal when a square on the rook's way is blocked.
pub proof fn lemma_castle_rook_path_blocked(b: Board, x: int, f: int)
    requires
        on_rank_path(
            x,
            castle_rook_file(b.pieces@[king_slot(b.current_player)]->Some_0.position.x as int, x),
            f,
        ),
        !(square(f, home_rank_of(b.current_player)) == b.pieces@[king_slot(
            b.current_player,
        )]->Some_0.position || !occupied(b.pieces@, square(f, home_rank_of(b.current_player)))),
    ensures
        !castle_legal(b, x),
{
}

/// The move record of castling with the rook on file `x`.
pub open spec fn castle_move(b: Board, x: int) -> Move {
    let s = b.pieces@;
    let c = b.current_player;
    let home = home_rank_of(c);
    let king = s[king_slot(c)]->Some_0;
    let r = index_at(s, square(x, home))->Some_0;
    Move {
        movement: SimpleMove {
            index: PieceIndex(king_slot(c) as u8),
            destination: square(castle_king_file(king.position.x as int, x), home),
            capture: None,
        },
        castling_rook: Some(
            SimpleMove {
                index: PieceIndex(r as u8),
                destination: square(castle_rook_file(king.position.x as int, x), home),
                capture: None,
            },
        ),
        promotion: None,
        en_passant_target: None,
        castling_right: b.castling_right.cleared(c),
    }
}

/// Whether `m` is a legal move on `b`.
pub open spec fn legal(b: Board, m: Move) -> bool {
    ||| exists|i: int, d: Coord, promo: Option<PieceKind>|
        plain_legal(b, i, d, promo) && m == #[trigger] plain_move(b, i, d, promo)
    ||| exists|x: int| castle_legal(b, x) && m == #[trigger] castle_move(b, x)
}

/// Whether the side to move has a legal move.
pub open spec fn has_legal_move(b: Board) -> bool {
    exists|m: Move| #[trigger] legal(b, m)
}

/// Slot `i` holds a piece of `color` other than its king.
pub open spec fn non_king(s: Slots, color: Color, i: int) -> bool {
    0 <= i < 32 && i != king_slot(color) && s[i] is Some && s[i]->Some_0.piece.color == color
}

/// A side has nothing but its king.
pub open spec fn lone_king(s: Slots, color: Color) -> bool {
    forall|i: int| !#[trigger] non_king(s, color, i)
}

/// A side has its king and either a single knight, or bishops that all
/// stand on squares of one color.
pub open spec fn minor_only(s: Slots, color: Color) -> bool {
    ||| exists|i: int|
        #[trigger] non_king(s, color, i) && s[i]->Some_0.piece.piece == PieceKind::Knight && (
        forall|j: int| j != i ==> !#[trigger] non_king(s, color, j))
    ||| exists|i: int|
        #[trigger] non_king(s, color, i) && s[i]->Some_0.piece.piece == PieceKind::Bishop && (
        forall|j: int|
            #[trigger] non_king(s, color, j) ==> s[j]->Some_0.piece.piece == PieceKind::Bishop
                && s[j]->Some_0.position.shade() == s[i]->Some_0.position.shade())
}

/// Neither side can ever checkmate: king against king, or a lone king
/// against a king with one knight or with bishops on one square color.
pub open spec fn dead_position(s: Slots) -> bool {
    ||| lone_king(s, Color::White) && (lone_king(s, Color::Black) || minor_only(s, Color::Black))
    ||| minor_only(s, Color::White) && lone_king(s, Color::Black)
}

/// Two bare kings cannot checkmate: the position is dead.
pub proof fn lemma_bare_kings_dead(s: Slots)
    requires
        forall|j: int| !#[trigger] non_king(s, Color::White, j),
        forall|j: int| !#[trigger] non_king(s, Color::Black, j),
    ensures
        dead_position(s),
{
}

/// A king and a single knight against a bare king, whichever side holds the
/// knight, is a dead position.
pub proof fn lemma_knight_against_bare_king_dead(s: Slots, strong: Color, i: int)
    requires
        non_king(s, strong, i),
        s[i]->Some_0.piece.piece == PieceKind::Knight,
        forall|j: int| #[trigger] non_king(s, strong, j) ==> j == i,
        forall|j: int| !#[trigger] non_king(s, strong.other(), j),
    ensures
        dead_position(s),
{
    assert(minor_only(s, strong));
    assert(lone_king(s, strong.other()));
}

/// A king and bishops all on squares of one color against a bare king,
/// whichever side holds the bishops, is a dead position.
pub proof fn lemma_bishops_against_bare_king_dead(s: Slots, strong: Color, i: int)
    requires
        non_king(s, strong, i),
        forall|j: int|
            #[trigger] non_king(s, strong, j) ==> s[j]->Some_0.piece.piece == PieceKind::Bishop
                && s[j]->Some_0.position.shade() == s[i]->Some_0.position.shade(),
        forall|j: int| !#[trigger] non_king(s, strong.other(), j),
    ensures
        dead_position(s),
{
    assert(minor_only(s, strong));
    assert(lone_king(s, strong.other()));
}

/// While a side has a pawn, a rook or a queen, the position is not dead.
pub proof fn lemma_major_piece_not_dead(s: Slots, c: Color, i: int)
    requires
        non_king(s, c, i),
        s[i]->Some_0.piece.piece == PieceKind::Pawn || s[i]->Some_0.piece.piece == PieceKind::Rook
            || s[i]->Some_0.piece.piece == PieceKind::Queen,
    ensures
        !dead_position(s),
{
    assert(!lone_king(s, c));
    if minor_only(s, c) {
        if exists|k: int|
            #[trigger] non_king(s, c, k) && s[k]->Some_0.piece.piece == PieceKind::Knight && (forall|j: int|
                j != k ==> !#[trigger] non_king(s, c, j)) {
            let k = choose|k: int|
                #[trigger] non_king(s, c, k) && s[k]->Some_0.piece.piece == PieceKind::Knight && (forall|j: int|
                    j != k ==> !#[trigger] non_king(s, c, j));
            assert(i == k);
        }
    }
}

/// While both sides have a piece besides their king, the position is not dead.
pub proof fn lemma_both_sides_armed_not_dead(s: Slots, i: int, j: int)
    requires
        non_king(s, Color::White, i),
        non_king(s, Color::Black, j),
    ensures
        !dead_position(s),
{
    assert(!lone_king(s, Color::White));
    assert(!lone_king(s, Color::Black));
}

/// A side with two knights, or a knight beside another piece, is not left
/// with a lone minor piece: the position is not dead.
pub proof fn lemma_knight_with_company_not_dead(s: Slots, c: Color, i: int, j: int)
    requires
        non_king(s, c, i),
        non_king(s, c, j),
        i != j,
        s[i]->Some_0.piece.piece == PieceKind::Knight,
    ensures
        !dead_position(s),
{
    assert(!lone_king(s, c));
    if minor_only(s, c) {
        if exists|k: int|
            #[trigger] non_king(s, c, k) && s[k]->Some_0.piece.piece == PieceKind::Knight && (forall|m: int|
                m != k ==> !#[trigger] non_king(s, c, m)) {
            let k = choose|k: int|
                #[trigger] non_king(s, c, k) && s[k]->Some_0.piece.piece == PieceKind::Knight && (forall|m: int|
                    m != k ==> !#[trigger] non_king(s, c, m));
            assert(i == k || j == k);
        } else {
            let k = choose|k: int|
                #[trigger] non_king(s, c, k) && s[k]->Some_0.piece.piece == PieceKind::Bishop && (forall|m: int|
                    #[trigger] non_king(s, c, m) ==> s[m]->Some_0.piece.piece == PieceKind::Bishop
                        && s[m]->Some_0.position.shade() == s[k]->Some_0.position.shade());
            assert(non_king(s, c, i));
        }
    }
    if c == Color::White {
        assert(!lone_king(s, Color::White));
    } else {
        assert(!lone_king(s, Color::Black));
    }
}

/// The slot of the piece standing on `sq`, if any.
pub fn find_at(s: &[Option<Piece>; 32], sq: Coord) -> (r: Option<usize>)
    ensures
        match r {
            Some(i) => occ(s@, sq, i as int),
            None => !occupied(s@, sq),
        },
{
    let mut i: usize = 0;
    while i < 32
        invariant
            0 <= i <= 32,
            s@.len() == 32,
            forall|j: int| 0 <= j < i ==> !#[trigger] occ(s@, sq, j),
        decreases 32 - i,
    {
        match s[i] {
            Some(p) => {
                if p.position == sq {
                    return Some(i);
                }
            },
            None => {},
        }
        i = i + 1;
    }
    proof {
        assert forall|j: int| !#[trigger] occ(s@, sq, j) by {
            if 0 <= j < 32 {
            }
        }
    }
    None
}

/// Whether some piece stands on `sq`.
pub fn is_occupied(s: &[Option<Piece>; 32], sq: Coord) -> (r: bool)
    ensures
        r == occupied(s@, sq),
{
    find_at(s, sq).is_some()
}

fn step_toward(a: u8, b: u8, k: u8) -> (r: u8)
    requires
        a < 8,
        b < 8,
        k <= 8,
        b > a ==> a + k <= b,
        b < a ==> k <= a,
    ensures
        r == along(a as int, b as int, k as int),
{
    if b > a {
        a + k
    } else if b < a {
        a - k
    } else {
        a
    }
}

/// Whether every square strictly between two squares is empty.
pub fn path_clear(s: &[Option<Piece>; 32], from: Coord, to: Coord) -> (r: bool)
    requires
        from.wf(),
        to.wf(),
        lined_up(from, to),
    ensures
        r == clear_path(s@, from, to),
{
    let dx: u8 = if to.x > from.x {
        to.x - from.x
    } else {
        from.x - to.x
    };
    let dy: u8 = if to.y > from.y {
        to.y - from.y
    } else {
        from.y - to.y
    };
    let n: u8 = if dx > dy {
        dx
    } else {
        dy
    };
    assert(n == distance(from, to));
    let mut k: u8 = 1;
    while k < n
        invariant
            from.wf(),
            to.wf(),
            n == distance(from, to),
            lined_up(from, to),
            n < 8,
            1 <= k <= 8,
            forall|j: int| 0 < j < k ==> !#[trigger] occupied(s@, line_step(from, to, j)),
        decreases n - k,
    {
        let x = step_toward(from.x, to.x, k);
        let y = step_toward(from.y, to.y, k);
        let sq = Coord::new(x, y);
        assert(sq == line_step(from, to, k as int));
        if is_occupied(s, sq) {
            return false;
        }
        k = k + 1;
    }
    true
}

/// Whether the piece `p` attacks `t`.
pub fn piece_attacks(s: &[Option<Piece>; 32], p: Piece, t: Coord) -> (r: bool)
    requires
        p.position.wf(),
        t.wf(),
    ensures
        r == attacks(s@, p, t),
{
    let from = p.position;
    let dx: i8 = t.x as i8 - from.x as i8;
    let dy: i8 = t.y as i8 - from.y as i8;
    let ax: i8 = if dx < 0 {
        -dx
    } else {
        dx
    };
    let ay: i8 = if dy < 0 {
        -dy
    } else {
        dy
    };
    match p.piece.piece {
        PieceKind::Pawn => {
            let dir: i8 = match p.piece.color {
                Color::White => -1,
                Color::Black => 1,
            };
            ax == 1 && dy == dir
        },
        PieceKind::Knight => (ax == 1 && ay == 2) || (ax == 2 && ay == 1),
        PieceKind::King => ax <= 1 && ay <= 1 && !(dx == 0 && dy == 0),
        PieceKind::Bishop => ax == ay && dx != 0 && path_clear(s, from, t),
        PieceKind::Rook => ((dx == 0) != (dy == 0)) && path_clear(s, from, t),
        PieceKind::Queen => ((ax == ay && dx != 0) || ((dx == 0) != (dy == 0))) && path_clear(
            s,
            from,
            t,
        ),
    }
}

/// Whether a piece of `color` attacks `t`.
pub fn is_attacked_by(s: &[Option<Piece>; 32], t: Coord, color: Color) -> (r: bool)
    requires
        positions_wf(s@),
        t.wf(),
    ensures
        r == attacked_by(s@, t, color),
{
    let mut i: usize = 0;
    while i < 32
        invariant
            0 <= i <= 32,
            positions_wf(s@),
            t.wf(),
            forall|j: int| 0 <= j < i ==> !#[trigger] attacker(s@, t, color, j),
        decreases 32 - i,
    {
        match s[i] {
            Some(p) => {
                if p.piece.color == color && piece_attacks(s, p, t) {
                    assert(attacker(s@, t, color, i as int));
                    return true;
                }
            },
            None => {},
        }
        i = i + 1;
    }
    proof {
        assert forall|j: int| !#[trigger] attacker(s@, t, color, j) by {
            if 0 <= j < 32 {
            }
        }
    }
    false
}

} // verus!
