use vstd::prelude::*;
use crate::castling_right::{bit, files_from, CastlingRight};
use crate::color::Color;
use crate::coord::{home_rank_of, square, Coord};
use crate::piece::{chess960_rank, standard_rank, ColoredPieceKind, Piece, PieceKind};
use crate::rules::{Slots, kind_range, occ, occupied, slot_color, slot_fits};

verus! {

/// Error returned when a board has more pieces of some kind than slots allow.
#[derive(Debug, Clone, Copy, PartialEq, Eq, Hash, Structural)]
pub enum ExceededPieces {
    PromotedPiece,
    Pawn,
    King,
}

/// A position as an 8x8 grid of squares (row 0 is the eighth rank), with
/// the side to move, castling rights and en passant target.
#[derive(Debug, Clone, Copy, PartialEq, Eq, Hash)]
pub struct HashableBoard {
    pub board: [[Option<ColoredPieceKind>; 8]; 8],
    pub current_player: Color,
    pub castling_right: CastlingRight,
    pub en_passant_target: Option<Coord>,
}

impl HashableBoard {
    /// What stands on the square at file `x`, row `y`.
    pub open spec fn cell(self, x: int, y: int) -> Option<ColoredPieceKind> {
        self.board@[y]@[x]
    }

    /// The en passant target, if any, is a square of the board.
    pub open spec fn wf(self) -> bool {
        self.en_passant_target matches Some(t) ==> t.wf()
    }
}

/// Number of cells among the first `x` of a row that hold `pk`.
pub open spec fn row_count(row: Seq<Option<ColoredPieceKind>>, pk: ColoredPieceKind, x: int) -> nat
    decreases x,
{
    if x <= 0 {
        0
    } else {
        row_count(row, pk, x - 1) + if row[x - 1] == Some(pk) {
            1nat
        } else {
            0nat
        }
    }
}

/// Number of cells in the first `y` rows that hold `pk`.
pub open spec fn rows_count(h: HashableBoard, pk: ColoredPieceKind, y: int) -> nat
    decreases y,
{
    if y <= 0 {
        0
    } else {
        rows_count(h, pk, y - 1) + row_count(h.board@[y - 1]@, pk, 8)
    }
}

/// Number of cells before (row `y`, file `x`) in reading order that hold `pk`.
pub open spec fn count_before(h: HashableBoard, pk: ColoredPieceKind, y: int, x: int) -> nat {
    rows_count(h, pk, y) + row_count(h.board@[y]@, pk, x)
}

/// Slots reserved for a kind (king 1, queen 1, rook 2, bishop 2, knight 2, pawn 8).
pub open spec fn capacity(k: PieceKind) -> int {
    match k {
        PieceKind::King => 1,
        PieceKind::Queen => 1,
        PieceKind::Rook => 2,
        PieceKind::Bishop => 2,
        PieceKind::Knight => 2,
        PieceKind::Pawn => 8,
    }
}

pub open spec fn excess(n: int, cap: int) -> int {
    if n > cap {
        n - cap
    } else {
        0
    }
}

pub open spec fn min_int(a: int, b: int) -> int {
    if a < b {
        a
    } else {
        b
    }
}

/// Number of pieces of kind `k` of side `c` on the cells before (row `y`, file `x`).
pub open spec fn cnt(h: HashableBoard, c: Color, k: PieceKind, y: int, x: int) -> int {
    count_before(h, ColoredPieceKind { color: c, piece: k }, y, x) as int
}

/// Pawn slots that side `c` needs for the cells before (row `y`, file `x`):
/// its pawns plus every queen, rook, bishop or knight beyond the slots of its kind.
pub open spec fn demand(h: HashableBoard, c: Color, y: int, x: int) -> int {
    cnt(h, c, PieceKind::Pawn, y, x) + excess(cnt(h, c, PieceKind::Queen, y, x), 1) + excess(
        cnt(h, c, PieceKind::Rook, y, x),
        2,
    ) + excess(cnt(h, c, PieceKind::Bishop, y, x), 2) + excess(cnt(h, c, PieceKind::Knight, y, x), 2)
}

/// The pieces of side `c` on the cells before (row `y`, file `x`) fit its 16 slots.
pub open spec fn side_fits(h: HashableBoard, c: Color, y: int, x: int) -> bool {
    cnt(h, c, PieceKind::King, y, x) <= 1 && demand(h, c, y, x) <= 8
}

/// The pieces on the cells before (row `y`, file `x`) fit the 32 slots.
pub open spec fn fits_at(h: HashableBoard, y: int, x: int) -> bool {
    side_fits(h, Color::White, y, x) && side_fits(h, Color::Black, y, x)
}

/// The pieces of the whole grid fit the 32 slots: at most one king per side,
/// and a side's pawns plus its surplus pieces fit its eight pawn slots.
pub open spec fn fits(h: HashableBoard) -> bool {
    fits_at(h, 8, 0)
}

/// The error reported when the piece on (row `y`, file `x`) is the first that
/// does not fit.
pub open spec fn overflow_kind(h: HashableBoard, y: int, x: int) -> ExceededPieces {
    match h.cell(x, y) {
        Some(pk) => if pk.piece == PieceKind::King {
            ExceededPieces::King
        } else if pk.piece == PieceKind::Pawn && cnt(h, pk.color, PieceKind::Pawn, y, x) == 8 {
            ExceededPieces::Pawn
        } else {
            ExceededPieces::PromotedPiece
        },
        None => ExceededPieces::PromotedPiece,
    }
}

/// Square `q` comes before (row `y`, file `x`) in reading order.
pub open spec fn processed(q: Coord, y: int, x: int) -> bool {
    q.y < y || (q.y == y && q.x < x)
}

/// Number of filled slots in `lo..hi`.
pub open spec fn filled(s: Slots, lo: int, hi: int) -> int
    decreases hi - lo,
{
    if lo >= hi {
        0
    } else {
        filled(s, lo, hi - 1) + if s[hi - 1] is Some {
            1int
        } else {
            0int
        }
    }
}

/// Number of slots in `lo..hi` holding a pawn.
pub open spec fn pawns_filled(s: Slots, lo: int, hi: int) -> int
    decreases hi - lo,
{
    if lo >= hi {
        0
    } else {
        pawns_filled(s, lo, hi - 1) + if s[hi - 1] is Some && s[hi - 1]->Some_0.piece.piece
            == PieceKind::Pawn {
            1int
        } else {
            0int
        }
    }
}

/// The slots hold the pieces of grid `h`: each on the board, in a slot of its
/// side that fits it, standing on a cell of `h` that shows it, no two on one
/// square, and every piece of `h` among them.
pub open spec fn represents(h: HashableBoard, s: Slots) -> bool {
    &&& s.len() == 32
    &&& forall|j: int|
        0 <= j < 32 && #[trigger] s[j] is Some ==> s[j]->Some_0.position.wf() && h.cell(
            s[j]->Some_0.position.x as int,
            s[j]->Some_0.position.y as int,
        ) == Some(s[j]->Some_0.piece) && s[j]->Some_0.piece.color == slot_color(j) && slot_fits(
            j,
            slot_color(j),
            s[j]->Some_0.piece.piece,
        )
    &&& forall|i: int, j: int|
        0 <= i < 32 && 0 <= j < 32 && i != j && #[trigger] s[i] is Some && #[trigger] s[j] is Some
            ==> s[i]->Some_0.position != s[j]->Some_0.position
    &&& forall|q: Coord| q.wf() && #[trigger] h.cell(q.x as int, q.y as int) is Some ==> occupied(s, q)
}

/// The slots of kind `k` of side `c` hold as many pieces as the placement put there.
pub open spec fn kind_ok(h: HashableBoard, s: Slots, y: int, x: int, c: Color, k: PieceKind) -> bool {
    filled(s, kind_range(c, k).0, kind_range(c, k).1) == min_int(cnt(h, c, k, y, x), capacity(k))
}

/// The pawn slots of side `c` hold its pawns and its surplus pieces.
pub open spec fn pawn_ok(h: HashableBoard, s: Slots, y: int, x: int, c: Color) -> bool {
    &&& filled(s, kind_range(c, PieceKind::Pawn).0, kind_range(c, PieceKind::Pawn).1) == demand(h, c, y, x)
    &&& pawns_filled(s, kind_range(c, PieceKind::Pawn).0, kind_range(c, PieceKind::Pawn).1) == cnt(
        h,
        c,
        PieceKind::Pawn,
        y,
        x,
    )
    &&& cnt(h, c, PieceKind::King, y, x) <= 1
}

/// What slot `j` holds, if anything, is a piece of a cell before (row `y`, file `x`).
pub open spec fn slot_ok(h: HashableBoard, s: Slots, y: int, x: int, j: int) -> bool {
    s[j] is Some ==> s[j]->Some_0.position.wf() && processed(s[j]->Some_0.position, y, x) && h.cell(
        s[j]->Some_0.position.x as int,
        s[j]->Some_0.position.y as int,
    ) == Some(s[j]->Some_0.piece) && s[j]->Some_0.piece.color == slot_color(j) && slot_fits(
        j,
        slot_color(j),
        s[j]->Some_0.piece.piece,
    )
}

/// Slot counts after placing the cells before (row `y`, file `x`).
#[verifier::opaque]
pub open spec fn counts_inv(h: HashableBoard, s: Slots, y: int, x: int) -> bool {
    &&& forall|c: Color, k: PieceKind| k != PieceKind::Pawn ==> #[trigger] kind_ok(h, s, y, x, c, k)
    &&& forall|c: Color| #[trigger] pawn_ok(h, s, y, x, c)
}

/// Slot contents after placing the cells before (row `y`, file `x`).
#[verifier::opaque]
pub open spec fn contents_inv(h: HashableBoard, s: Slots, y: int, x: int) -> bool {
    &&& forall|j: int| 0 <= j < 32 ==> #[trigger] slot_ok(h, s, y, x, j)
    &&& forall|q: Coord|
        q.wf() && processed(q, y, x) && #[trigger] h.cell(q.x as int, q.y as int) is Some ==> occupied(s, q)
    &&& forall|i: int, j: int|
        0 <= i < 32 && 0 <= j < 32 && i != j && #[trigger] s[i] is Some && #[trigger] s[j] is Some
            ==> s[i]->Some_0.position != s[j]->Some_0.position
}

/// The state of the placement after the cells before (row `y`, file `x`).
pub open spec fn placement_inv(h: HashableBoard, s: Slots, y: int, x: int) -> bool {
    s.len() == 32 && counts_inv(h, s, y, x) && contents_inv(h, s, y, x)
}

proof fn lemma_filled_bounds(s: Slots, lo: int, hi: int)
    requires
        lo <= hi,
    ensures
        0 <= pawns_filled(s, lo, hi) <= filled(s, lo, hi) <= hi - lo,
        filled(s, lo, hi) == hi - lo <==> forall|j: int| lo <= j < hi ==> #[trigger] s[j] is Some,
    decreases hi - lo,
{
    if lo < hi {
        lemma_filled_bounds(s, lo, hi - 1);
    }
}

proof fn lemma_pawns_filled_all(s: Slots, lo: int, hi: int)
    requires
        lo <= hi,
        forall|j: int| lo <= j < hi ==> #[trigger] s[j] is Some,
    ensures
        pawns_filled(s, lo, hi) == hi - lo <==> forall|j: int|
            lo <= j < hi ==> #[trigger] s[j]->Some_0.piece.piece == PieceKind::Pawn,
    decreases hi - lo,
{
    if lo < hi {
        lemma_pawns_filled_all(s, lo, hi - 1);
        lemma_filled_bounds(s, lo, hi - 1);
    }
}

proof fn lemma_filled_update(s: Slots, j: int, v: Option<Piece>, lo: int, hi: int)
    requires
        0 <= lo <= hi <= s.len(),
        0 <= j < s.len(),
        s[j] is None,
        v is Some,
    ensures
        filled(s.update(j, v), lo, hi) == filled(s, lo, hi) + if lo <= j < hi {
            1int
        } else {
            0int
        },
        pawns_filled(s.update(j, v), lo, hi) == pawns_filled(s, lo, hi) + if lo <= j < hi
            && v->Some_0.piece.piece == PieceKind::Pawn {
            1int
        } else {
            0int
        },
    decreases hi - lo,
{
    if lo < hi {
        lemma_filled_update(s, j, v, lo, hi - 1);
    }
}

proof fn lemma_empty_filled(s: Slots, lo: int, hi: int)
    requires
        0 <= lo <= hi <= s.len(),
        forall|j: int| 0 <= j < s.len() ==> #[trigger] s[j] is None,
    ensures
        filled(s, lo, hi) == 0,
        pawns_filled(s, lo, hi) == 0,
    decreases hi - lo,
{
    if lo < hi {
        lemma_empty_filled(s, lo, hi - 1);
    }
}

proof fn lemma_row_count_bound(row: Seq<Option<ColoredPieceKind>>, pk: ColoredPieceKind, x: int, x2: int)
    requires
        0 <= x <= x2,
    ensures
        row_count(row, pk, x) <= row_count(row, pk, x2),
    decreases x2 - x,
{
    if x < x2 {
        lemma_row_count_bound(row, pk, x, x2 - 1);
    }
}

proof fn lemma_rows_count_bound(h: HashableBoard, pk: ColoredPieceKind, y: int, y2: int)
    requires
        0 <= y <= y2,
    ensures
        rows_count(h, pk, y) <= rows_count(h, pk, y2),
    decreases y2 - y,
{
    if y < y2 {
        lemma_rows_count_bound(h, pk, y, y2 - 1);
    }
}

/// Counts before a cell never exceed the counts over the whole grid.
proof fn lemma_cnt_bound(h: HashableBoard, c: Color, k: PieceKind, y: int, x: int)
    requires
        0 <= y < 8,
        0 <= x <= 8,
    ensures
        cnt(h, c, k, y, x) <= cnt(h, c, k, 8, 0),
{
    let pk = ColoredPieceKind { color: c, piece: k };
    lemma_row_count_bound(h.board@[y]@, pk, x, 8);
    lemma_rows_count_bound(h, pk, y + 1, 8);
    assert(row_count(h.board@[8]@, pk, 0) == 0);
}

/// Once the pieces before a cell do not fit, the whole grid does not fit.
proof fn lemma_overflow_stays(h: HashableBoard, y: int, x: int)
    requires
        0 <= y < 8,
        0 <= x <= 8,
        !fits_at(h, y, x),
    ensures
        !fits(h),
{
    assert forall|c: Color, k: PieceKind| #[trigger] cnt(h, c, k, y, x) <= cnt(h, c, k, 8, 0) by {
        lemma_cnt_bound(h, c, k, y, x);
    }
    assert(cnt(h, Color::White, PieceKind::King, y, x) <= cnt(h, Color::White, PieceKind::King, 8, 0));
    assert(cnt(h, Color::Black, PieceKind::King, y, x) <= cnt(h, Color::Black, PieceKind::King, 8, 0));
    assert(demand(h, Color::White, y, x) <= demand(h, Color::White, 8, 0));
    assert(demand(h, Color::Black, y, x) <= demand(h, Color::Black, 8, 0));
}

/// Counting one more cell of a row.
proof fn lemma_cnt_step(h: HashableBoard, c: Color, k: PieceKind, y: int, x: int)
    requires
        0 <= y < 8,
        0 <= x < 8,
    ensures
        cnt(h, c, k, y, x + 1) == cnt(h, c, k, y, x) + if h.cell(x, y) == Some(
            ColoredPieceKind { color: c, piece: k },
        ) {
            1int
        } else {
            0int
        },
{
    let pk = ColoredPieceKind { color: c, piece: k };
    assert(row_count(h.board@[y]@, pk, x + 1) == row_count(h.board@[y]@, pk, x) + if h.board@[y]@[x]
        == Some(pk) {
        1nat
    } else {
        0nat
    });
}

/// Counting the cells of a whole row.
proof fn lemma_cnt_row(h: HashableBoard, c: Color, k: PieceKind, y: int)
    requires
        0 <= y < 8,
    ensures
        cnt(h, c, k, y + 1, 0) == cnt(h, c, k, y, 8),
{
    let pk = ColoredPieceKind { color: c, piece: k };
    assert(row_count(h.board@[y + 1]@, pk, 0) == 0);
}

proof fn lemma_start(h: HashableBoard, s: Slots)
    requires
        s.len() == 32,
        forall|j: int| 0 <= j < s.len() ==> #[trigger] s[j] is None,
    ensures
        placement_inv(h, s, 0, 0),
{
    reveal(counts_inv);
    reveal(contents_inv);
    assert forall|c: Color, k: PieceKind| #[trigger] cnt(h, c, k, 0, 0) == 0 by {
        let pk = ColoredPieceKind { color: c, piece: k };
        assert(row_count(h.board@[0]@, pk, 0) == 0);
    }
    assert forall|c: Color, k: PieceKind| k != PieceKind::Pawn implies #[trigger] kind_ok(h, s, 0, 0, c, k) by {
        lemma_empty_filled(s, kind_range(c, k).0, kind_range(c, k).1);
        assert(cnt(h, c, k, 0, 0) == 0);
    }
    assert forall|c: Color| #[trigger] pawn_ok(h, s, 0, 0, c) by {
        lemma_empty_filled(s, kind_range(c, PieceKind::Pawn).0, kind_range(c, PieceKind::Pawn).1);
        assert(cnt(h, c, PieceKind::Pawn, 0, 0) == 0);
        assert(cnt(h, c, PieceKind::Queen, 0, 0) == 0);
        assert(cnt(h, c, PieceKind::Rook, 0, 0) == 0);
        assert(cnt(h, c, PieceKind::Bishop, 0, 0) == 0);
        assert(cnt(h, c, PieceKind::Knight, 0, 0) == 0);
        assert(cnt(h, c, PieceKind::King, 0, 0) == 0);
    }
    assert forall|j: int| 0 <= j < 32 implies #[trigger] slot_ok(h, s, 0, 0, j) by {
        assert(s[j] is None);
    }
}

/// While the placement goes on, the pieces placed so far fit.
proof fn lemma_inv_fits(h: HashableBoard, s: Slots, y: int, x: int)
    requires
        placement_inv(h, s, y, x),
    ensures
        fits_at(h, y, x),
{
    reveal(counts_inv);
    assert(pawn_ok(h, s, y, x, Color::White));
    assert(pawn_ok(h, s, y, x, Color::Black));
    lemma_filled_bounds(s, kind_range(Color::White, PieceKind::Pawn).0, kind_range(Color::White, PieceKind::Pawn).1);
    lemma_filled_bounds(s, kind_range(Color::Black, PieceKind::Pawn).0, kind_range(Color::Black, PieceKind::Pawn).1);
}

proof fn lemma_skip_empty(h: HashableBoard, s: Slots, y: int, x: int)
    requires
        0 <= y < 8,
        0 <= x < 8,
        placement_inv(h, s, y, x),
        h.cell(x, y) is None,
    ensures
        placement_inv(h, s, y, x + 1),
{
    reveal(counts_inv);
    reveal(contents_inv);
    assert forall|c: Color, k: PieceKind| #[trigger] cnt(h, c, k, y, x + 1) == cnt(h, c, k, y, x) by {
        lemma_cnt_step(h, c, k, y, x);
    }
    assert forall|c: Color, k: PieceKind| k != PieceKind::Pawn implies #[trigger] kind_ok(h, s, y, x + 1, c, k) by {
        assert(kind_ok(h, s, y, x, c, k));
        assert(cnt(h, c, k, y, x + 1) == cnt(h, c, k, y, x));
    }
    assert forall|c: Color| #[trigger] pawn_ok(h, s, y, x + 1, c) by {
        assert(pawn_ok(h, s, y, x, c));
        assert(cnt(h, c, PieceKind::Pawn, y, x + 1) == cnt(h, c, PieceKind::Pawn, y, x));
        assert(cnt(h, c, PieceKind::Queen, y, x + 1) == cnt(h, c, PieceKind::Queen, y, x));
        assert(cnt(h, c, PieceKind::Rook, y, x + 1) == cnt(h, c, PieceKind::Rook, y, x));
        assert(cnt(h, c, PieceKind::Bishop, y, x + 1) == cnt(h, c, PieceKind::Bishop, y, x));
        assert(cnt(h, c, PieceKind::Knight, y, x + 1) == cnt(h, c, PieceKind::Knight, y, x));
        assert(cnt(h, c, PieceKind::King, y, x + 1) == cnt(h, c, PieceKind::King, y, x));
    }
    assert forall|j: int| 0 <= j < 32 implies #[trigger] slot_ok(h, s, y, x + 1, j) by {
        assert(slot_ok(h, s, y, x, j));
    }
    assert forall|q: Coord|
        q.wf() && processed(q, y, x + 1) && #[trigger] h.cell(q.x as int, q.y as int) is Some implies occupied(s, q) by {
        assert(processed(q, y, x));
    }
}

proof fn lemma_next_row(h: HashableBoard, s: Slots, y: int)
    requires
        0 <= y < 8,
        placement_inv(h, s, y, 8),
    ensures
        placement_inv(h, s, y + 1, 0),
{
    reveal(counts_inv);
    reveal(contents_inv);
    assert forall|c: Color, k: PieceKind| #[trigger] cnt(h, c, k, y + 1, 0) == cnt(h, c, k, y, 8) by {
        lemma_cnt_row(h, c, k, y);
    }
    assert forall|c: Color, k: PieceKind| k != PieceKind::Pawn implies #[trigger] kind_ok(h, s, y + 1, 0, c, k) by {
        assert(kind_ok(h, s, y, 8, c, k));
        assert(cnt(h, c, k, y + 1, 0) == cnt(h, c, k, y, 8));
    }
    assert forall|c: Color| #[trigger] pawn_ok(h, s, y + 1, 0, c) by {
        assert(pawn_ok(h, s, y, 8, c));
        assert(cnt(h, c, PieceKind::Pawn, y + 1, 0) == cnt(h, c, PieceKind::Pawn, y, 8));
        assert(cnt(h, c, PieceKind::Queen, y + 1, 0) == cnt(h, c, PieceKind::Queen, y, 8));
        assert(cnt(h, c, PieceKind::Rook, y + 1, 0) == cnt(h, c, PieceKind::Rook, y, 8));
        assert(cnt(h, c, PieceKind::Bishop, y + 1, 0) == cnt(h, c, PieceKind::Bishop, y, 8));
        assert(cnt(h, c, PieceKind::Knight, y + 1, 0) == cnt(h, c, PieceKind::Knight, y, 8));
        assert(cnt(h, c, PieceKind::King, y + 1, 0) == cnt(h, c, PieceKind::King, y, 8));
    }
    assert forall|j: int| 0 <= j < 32 implies #[trigger] slot_ok(h, s, y + 1, 0, j) by {
        assert(slot_ok(h, s, y, 8, j));
    }
    assert forall|q: Coord|
        q.wf() && processed(q, y + 1, 0) && #[trigger] h.cell(q.x as int, q.y as int) is Some implies occupied(s, q) by {
        assert(processed(q, y, 8));
    }
}

proof fn lemma_finish(h: HashableBoard, s: Slots)
    requires
        placement_inv(h, s, 8, 0),
    ensures
        represents(h, s),
        fits(h),
{
    lemma_inv_fits(h, s, 8, 0);
    reveal(contents_inv);
    assert forall|j: int| 0 <= j < 32 && #[trigger] s[j] is Some implies s[j]->Some_0.position.wf() && h.cell(
            s[j]->Some_0.position.x as int,
            s[j]->Some_0.position.y as int,
        ) == Some(s[j]->Some_0.piece) && s[j]->Some_0.piece.color == slot_color(j) && slot_fits(
            j,
            slot_color(j),
            s[j]->Some_0.piece.piece,
        ) by {
        assert(slot_ok(h, s, 8, 0, j));
    }
    assert forall|q: Coord| q.wf() && #[trigger] h.cell(q.x as int, q.y as int) is Some implies occupied(s, q) by {
        assert(processed(q, 8, 0));
    }
}


/// The premises of placing `piece` from cell (row `y`, file `x`) into free slot
/// `j`: of its own kind (`own`), or else a pawn slot once its own are full.
pub open spec fn place_ok(h: HashableBoard, s: Slots, y: int, x: int, j: int, piece: Piece, own: bool) -> bool {
    &&& 0 <= y < 8
    &&& 0 <= x < 8
    &&& placement_inv(h, s, y, x)
    &&& h.cell(x, y) == Some(piece.piece)
    &&& 0 <= j < 32
    &&& s[j] is None
    &&& own ==> piece.piece.piece != PieceKind::Pawn && kind_range(piece.piece.color, piece.piece.piece).0
        <= j < kind_range(piece.piece.color, piece.piece.piece).1
    &&& !own ==> piece.piece.piece != PieceKind::King && kind_range(piece.piece.color, PieceKind::Pawn).0
        <= j < kind_range(piece.piece.color, PieceKind::Pawn).1
    &&& !own && piece.piece.piece != PieceKind::Pawn ==> forall|i: int|
        kind_range(piece.piece.color, piece.piece.piece).0 <= i < kind_range(
            piece.piece.color,
            piece.piece.piece,
        ).1 ==> #[trigger] s[i] is Some
}

/// Where a placed piece goes relative to the slots of its own kind.
proof fn lemma_place_own(h: HashableBoard, s: Slots, y: int, x: int, j: int, piece: Piece, own: bool)
    requires
        place_ok(h, s, y, x, j, piece, own),
    ensures
        piece.piece.piece != PieceKind::Pawn && own ==> cnt(h, piece.piece.color, piece.piece.piece, y, x)
            < capacity(piece.piece.piece),
        piece.piece.piece != PieceKind::Pawn && !own ==> cnt(h, piece.piece.color, piece.piece.piece, y, x)
            >= capacity(piece.piece.piece),
{
    reveal(counts_inv);
    let pc = piece.piece.color;
    let pk = piece.piece.piece;
    let (lo, hi) = kind_range(pc, pk);
    lemma_filled_bounds(s, lo, hi);
    if pk != PieceKind::Pawn {
        assert(kind_ok(h, s, y, x, pc, pk));
    }
}

/// Counting the cell of a placed piece.
proof fn lemma_place_cnt(h: HashableBoard, y: int, x: int, piece: Piece)
    requires
        0 <= y < 8,
        0 <= x < 8,
        h.cell(x, y) == Some(piece.piece),
    ensures
        forall|c: Color, k: PieceKind| #[trigger] cnt(h, c, k, y, x + 1) == cnt(h, c, k, y, x) + (if c
            == piece.piece.color && k == piece.piece.piece {
            1int
        } else {
            0int
        }),
{
    assert forall|c: Color, k: PieceKind| #[trigger] cnt(h, c, k, y, x + 1) == cnt(h, c, k, y, x) + (if c
        == piece.piece.color && k == piece.piece.piece {
        1int
    } else {
        0int
    }) by {
        lemma_cnt_step(h, c, k, y, x);
    }
}

/// Placing a piece keeps the counts of the slots of each kind.
proof fn lemma_place_kinds(h: HashableBoard, s: Slots, y: int, x: int, j: int, piece: Piece, own: bool)
    requires
        place_ok(h, s, y, x, j, piece, own),
    ensures
        forall|c: Color, k: PieceKind|
            k != PieceKind::Pawn ==> #[trigger] kind_ok(h, s.update(j, Some(piece)), y, x + 1, c, k),
{
    let s2 = s.update(j, Some(piece));
    let pc = piece.piece.color;
    let pk = piece.piece.piece;
    lemma_place_own(h, s, y, x, j, piece, own);
    lemma_place_cnt(h, y, x, piece);
    assert forall|c: Color, k: PieceKind| k != PieceKind::Pawn implies #[trigger] kind_ok(h, s2, y, x + 1, c, k) by {
        reveal(counts_inv);
        assert(kind_ok(h, s, y, x, c, k));
        lemma_filled_update(s, j, Some(piece), kind_range(c, k).0, kind_range(c, k).1);
        assert(cnt(h, c, k, y, x + 1) == cnt(h, c, k, y, x) + (if c == pc && k == pk {
            1int
        } else {
            0int
        }));
    }
}

/// Placing a piece keeps the counts of the pawn slots.
#[verifier::spinoff_prover]
#[verifier::rlimit(40)]
proof fn lemma_place_pawns(h: HashableBoard, s: Slots, y: int, x: int, j: int, piece: Piece, own: bool)
    requires
        place_ok(h, s, y, x, j, piece, own),
    ensures
        forall|c: Color| #[trigger] pawn_ok(h, s.update(j, Some(piece)), y, x + 1, c),
{
    let s2 = s.update(j, Some(piece));
    let pc = piece.piece.color;
    let pk = piece.piece.piece;
    lemma_place_own(h, s, y, x, j, piece, own);
    lemma_place_cnt(h, y, x, piece);
    if pk == PieceKind::King {
        reveal(counts_inv);
        assert(kind_ok(h, s, y, x, pc, pk));
    }
    assert forall|c: Color| #[trigger] pawn_ok(h, s2, y, x + 1, c) by {
        reveal(counts_inv);
        assert(pawn_ok(h, s, y, x, c));
        lemma_filled_update(s, j, Some(piece), kind_range(c, PieceKind::Pawn).0, kind_range(c, PieceKind::Pawn).1);
        assert(cnt(h, c, PieceKind::Pawn, y, x + 1) == cnt(h, c, PieceKind::Pawn, y, x) + (if c == pc && PieceKind::Pawn == pk { 1int } else { 0int }));
        assert(cnt(h, c, PieceKind::Queen, y, x + 1) == cnt(h, c, PieceKind::Queen, y, x) + (if c == pc && PieceKind::Queen == pk { 1int } else { 0int }));
        assert(cnt(h, c, PieceKind::Rook, y, x + 1) == cnt(h, c, PieceKind::Rook, y, x) + (if c == pc && PieceKind::Rook == pk { 1int } else { 0int }));
        assert(cnt(h, c, PieceKind::Bishop, y, x + 1) == cnt(h, c, PieceKind::Bishop, y, x) + (if c == pc && PieceKind::Bishop == pk { 1int } else { 0int }));
        assert(cnt(h, c, PieceKind::Knight, y, x + 1) == cnt(h, c, PieceKind::Knight, y, x) + (if c == pc && PieceKind::Knight == pk { 1int } else { 0int }));
        assert(cnt(h, c, PieceKind::King, y, x + 1) == cnt(h, c, PieceKind::King, y, x) + (if c == pc && PieceKind::King == pk { 1int } else { 0int }));
    }
}

/// Placing a piece keeps the slot counts in step with the cell counts.
proof fn lemma_place_counts(h: HashableBoard, s: Slots, y: int, x: int, j: int, piece: Piece, own: bool)
    requires
        place_ok(h, s, y, x, j, piece, own),
    ensures
        counts_inv(h, s.update(j, Some(piece)), y, x + 1),
{
    lemma_place_kinds(h, s, y, x, j, piece, own);
    lemma_place_pawns(h, s, y, x, j, piece, own);
    reveal(counts_inv);
}

/// Placing a piece in a free slot keeps the slot contents in step with the grid.
proof fn lemma_place_contents(h: HashableBoard, s: Slots, y: int, x: int, j: int, piece: Piece, own: bool)
    requires
        0 <= y < 8,
        0 <= x < 8,
        placement_inv(h, s, y, x),
        h.cell(x, y) == Some(piece.piece),
        piece.position == square(x, y),
        0 <= j < 32,
        s[j] is None,
        own ==> kind_range(piece.piece.color, piece.piece.piece).0 <= j < kind_range(
            piece.piece.color,
            piece.piece.piece,
        ).1,
        !own ==> piece.piece.piece != PieceKind::King && kind_range(piece.piece.color, PieceKind::Pawn).0
            <= j < kind_range(piece.piece.color, PieceKind::Pawn).1,
    ensures
        contents_inv(h, s.update(j, Some(piece)), y, x + 1),
{
    reveal(contents_inv);
    let s2 = s.update(j, Some(piece));
    assert(slot_color(j) == piece.piece.color);
    assert forall|i: int| 0 <= i < 32 implies #[trigger] slot_ok(h, s2, y, x + 1, i) by {
        if i != j {
            assert(slot_ok(h, s, y, x, i));
        }
    }
    assert forall|q: Coord|
        q.wf() && processed(q, y, x + 1) && #[trigger] h.cell(q.x as int, q.y as int) is Some implies occupied(s2, q) by {
        if processed(q, y, x) {
            let i = choose|i: int| #[trigger] occ(s, q, i);
            assert(occ(s2, q, i));
        } else {
            assert(q == piece.position);
            assert(occ(s2, q, j));
        }
    }
    assert forall|a: int, b: int|
        0 <= a < 32 && 0 <= b < 32 && a != b && #[trigger] s2[a] is Some && #[trigger] s2[b] is Some
            implies s2[a]->Some_0.position != s2[b]->Some_0.position by {
        if a == j {
            assert(slot_ok(h, s, y, x, b));
        } else if b == j {
            assert(slot_ok(h, s, y, x, a));
        } else {
            assert(s[a] is Some && s[b] is Some);
        }
    }
}

/// A piece finds no free slot exactly when the pieces up to it do not fit.
#[verifier::spinoff_prover]
#[verifier::rlimit(40)]
proof fn lemma_place_fails(h: HashableBoard, s: Slots, y: int, x: int, pk: ColoredPieceKind, plo: int, phi: int)
    requires
        plo == kind_range(pk.color, PieceKind::Pawn).0,
        phi == kind_range(pk.color, PieceKind::Pawn).1,
        0 <= y < 8,
        0 <= x < 8,
        placement_inv(h, s, y, x),
        h.cell(x, y) == Some(pk),
        pk.piece == PieceKind::King ==> s[kind_range(pk.color, PieceKind::King).0] is Some,
        pk.piece != PieceKind::King ==> forall|j: int|
            kind_range(pk.color, PieceKind::Pawn).0 <= j < kind_range(pk.color, PieceKind::Pawn).1
                ==> #[trigger] s[j] is Some,
        pk.piece != PieceKind::King && pk.piece != PieceKind::Pawn ==> forall|j: int|
            kind_range(pk.color, pk.piece).0 <= j < kind_range(pk.color, pk.piece).1 ==> #[trigger] s[j] is Some,
    ensures
        !fits_at(h, y, x + 1),
        pk.piece == PieceKind::Pawn ==> (cnt(h, pk.color, PieceKind::Pawn, y, x) == 8 <==> forall|j: int|
            plo <= j < phi ==> #[trigger] s[j]->Some_0.piece.piece == PieceKind::Pawn),
{
    reveal(counts_inv);
    let c = pk.color;
    assert forall|k: PieceKind| #[trigger] cnt(h, c, k, y, x + 1) == cnt(h, c, k, y, x) + (if k == pk.piece {
        1int
    } else {
        0int
    }) by {
        lemma_cnt_step(h, c, k, y, x);
    }
    assert(pawn_ok(h, s, y, x, c));
    if pk.piece == PieceKind::King {
        let (lo, hi) = kind_range(c, PieceKind::King);
        assert forall|j: int| lo <= j < hi implies #[trigger] s[j] is Some by {
            assert(j == lo);
        }
        lemma_filled_bounds(s, lo, hi);
        assert(kind_ok(h, s, y, x, c, PieceKind::King));
        assert(cnt(h, c, PieceKind::King, y, x + 1) >= 2);
    } else {
        lemma_filled_bounds(s, plo, phi);
        if pk.piece != PieceKind::Pawn {
            lemma_filled_bounds(s, kind_range(c, pk.piece).0, kind_range(c, pk.piece).1);
            assert(kind_ok(h, s, y, x, c, pk.piece));
        }
        assert(cnt(h, c, PieceKind::Pawn, y, x + 1) == cnt(h, c, PieceKind::Pawn, y, x) + (if PieceKind::Pawn == pk.piece { 1int } else { 0int }));
        assert(cnt(h, c, PieceKind::Queen, y, x + 1) == cnt(h, c, PieceKind::Queen, y, x) + (if PieceKind::Queen == pk.piece { 1int } else { 0int }));
        assert(cnt(h, c, PieceKind::Rook, y, x + 1) == cnt(h, c, PieceKind::Rook, y, x) + (if PieceKind::Rook == pk.piece { 1int } else { 0int }));
        assert(cnt(h, c, PieceKind::Bishop, y, x + 1) == cnt(h, c, PieceKind::Bishop, y, x) + (if PieceKind::Bishop == pk.piece { 1int } else { 0int }));
        assert(cnt(h, c, PieceKind::Knight, y, x + 1) == cnt(h, c, PieceKind::Knight, y, x) + (if PieceKind::Knight == pk.piece { 1int } else { 0int }));
        assert(demand(h, c, y, x + 1) == 9);
        if pk.piece == PieceKind::Pawn {
            lemma_pawns_filled_all(s, plo, phi);
        }
    }
}

/// The first empty slot in `lo..hi`, if any.
fn free_slot(s: &[Option<Piece>; 32], lo: usize, hi: usize) -> (r: Option<usize>)
    requires
        lo <= hi <= 32,
    ensures
        match r {
            Some(j) => lo <= j < hi && s@[j as int] is None,
            None => forall|j: int| lo <= j < hi ==> #[trigger] s@[j] is Some,
        },
{
    let mut j = lo;
    while j < hi
        invariant
            lo <= j <= hi <= 32,
            forall|k: int| lo <= k < j ==> #[trigger] s@[k] is Some,
        decreases hi - j,
    {
        if s[j].is_none() {
            return Some(j);
        }
        j = j + 1;
    }
    None
}

/// Whether every slot in `lo..hi` holds a pawn, given that all are filled.
fn all_pawns(s: &[Option<Piece>; 32], lo: usize, hi: usize) -> (r: bool)
    requires
        lo <= hi <= 32,
        forall|j: int| lo <= j < hi ==> #[trigger] s@[j] is Some,
    ensures
        r == forall|j: int| lo <= j < hi ==> #[trigger] s@[j]->Some_0.piece.piece == PieceKind::Pawn,
{
    let mut j = lo;
    while j < hi
        invariant
            lo <= j <= hi <= 32,
            forall|k: int| lo <= k < hi ==> #[trigger] s@[k] is Some,
            forall|k: int| lo <= k < j ==> #[trigger] s@[k]->Some_0.piece.piece == PieceKind::Pawn,
        decreases hi - j,
    {
        match s[j] {
            Some(p) => {
                if p.piece.piece != PieceKind::Pawn {
                    return false;
                }
            },
            None => {},
        }
        j = j + 1;
    }
    true
}

/// The slots of a kind of a side, as in `kind_range`.
fn range_of(color: Color, kind: PieceKind) -> (r: (usize, usize))
    ensures
        r.0 == kind_range(color, kind).0,
        r.1 == kind_range(color, kind).1,
{
    let base: usize = match color {
        Color::White => 0,
        Color::Black => 16,
    };
    match kind {
        PieceKind::King => (base, base + 1),
        PieceKind::Queen => (base + 1, base + 2),
        PieceKind::Rook => (base + 2, base + 4),
        PieceKind::Bishop => (base + 4, base + 6),
        PieceKind::Knight => (base + 6, base + 8),
        PieceKind::Pawn => (base + 8, base + 16),
    }
}

/// Puts the pieces of a grid into slots, reading the grid from the eighth rank
/// down: each piece takes the first free slot of its kind, then (queens,
/// rooks, bishops and knights only) the first free pawn slot. Fails at the
/// first piece that finds no slot.
pub fn place_pieces(h: &HashableBoard) -> (r: Result<[Option<Piece>; 32], ExceededPieces>)
    ensures
        r is Ok <==> fits(*h),
        match r {
            Ok(s) => represents(*h, s@),
            Err(e) => exists|y: int, x: int|
                #![trigger overflow_kind(*h, y, x)]
                0 <= y < 8 && 0 <= x < 8 && fits_at(*h, y, x) && !fits_at(*h, y, x + 1) && e
                    == overflow_kind(*h, y, x),
        },
{
    let mut s: [Option<Piece>; 32] = [None;32];
    proof {
        lemma_start(*h, s@);
    }
    let mut y: usize = 0;
    while y < 8
        invariant
            0 <= y <= 8,
            placement_inv(*h, s@, y as int, 0),
        decreases 8 - y,
    {
        let mut x: usize = 0;
        while x < 8
            invariant
                0 <= y < 8,
                0 <= x <= 8,
                placement_inv(*h, s@, y as int, x as int),
            decreases 8 - x,
        {
            let cell = h.board[y][x];
            proof {
                assert(cell == h.cell(x as int, y as int));
            }
            match cell {
                None => {
                    proof {
                        lemma_skip_empty(*h, s@, y as int, x as int);
                    }
                },
                Some(pk) => {
                    let c = pk.color;
                    let k = pk.piece;
                    let (lo, hi) = range_of(c, k);
                    let (plo, phi) = range_of(c, PieceKind::Pawn);
                    let own = if k == PieceKind::Pawn {
                        None
                    } else {
                        free_slot(&s, lo, hi)
                    };
                    let slot = match own {
                        Some(j) => Some(j),
                        None => if k == PieceKind::King {
                            None
                        } else {
                            free_slot(&s, plo, phi)
                        },
                    };
                    match slot {
                        Some(j) => {
                            let piece = Piece { piece: pk, position: Coord::new(x as u8, y as u8) };
                            proof {
                                lemma_place_counts(*h, s@, y as int, x as int, j as int, piece, own is Some);
                                lemma_place_contents(*h, s@, y as int, x as int, j as int, piece, own is Some);
                            }
                            s[j] = Some(piece);
                        },
                        None => {
                            proof {
                                lemma_place_fails(*h, s@, y as int, x as int, pk, plo as int, phi as int);
                                lemma_inv_fits(*h, s@, y as int, x as int);
                                lemma_overflow_stays(*h, y as int, x + 1);
                                assert(overflow_kind(*h, y as int, x as int) == overflow_kind(*h, y as int, x as int));
                            }
                            if k == PieceKind::Pawn {
                                let pawns_only = all_pawns(&s, plo, phi);
                                proof {
                                    assert(pawns_only == (cnt(*h, c, PieceKind::Pawn, y as int, x as int) == 8));
                                }
                                if pawns_only {
                                    proof {
                                        assert(h.cell(x as int, y as int) == Some(pk));
                                        assert(pk.piece == PieceKind::Pawn);
                                        assert(cnt(*h, pk.color, PieceKind::Pawn, y as int, x as int) == 8);
                                        assert(overflow_kind(*h, y as int, x as int) == ExceededPieces::Pawn);
                                        assert(fits_at(*h, y as int, x as int));
                                        assert(!fits_at(*h, y as int, x + 1));
                                    }
                                    return Err(ExceededPieces::Pawn);
                                }
                                return Err(ExceededPieces::PromotedPiece);
                            } else if k == PieceKind::King {
                                return Err(ExceededPieces::King);
                            } else {
                                return Err(ExceededPieces::PromotedPiece);
                            }
                        },
                    }
                },
            }
            x = x + 1;
        }
        proof {
            lemma_next_row(*h, s@, y as int);
        }
        y = y + 1;
    }
    proof {
        lemma_finish(*h, s@);
    }
    Ok(s)
}


/// The grid of a starting position whose back ranks follow `cfg`: black on the
/// top row, black pawns below it, white pawns and white pieces on the bottom two.
pub open spec fn configuration_cell(cfg: Seq<PieceKind>, x: int, y: int) -> Option<ColoredPieceKind> {
    if y == 0 {
        Some(ColoredPieceKind { color: Color::Black, piece: cfg[x] })
    } else if y == 1 {
        Some(ColoredPieceKind { color: Color::Black, piece: PieceKind::Pawn })
    } else if y == 6 {
        Some(ColoredPieceKind { color: Color::White, piece: PieceKind::Pawn })
    } else if y == 7 {
        Some(ColoredPieceKind { color: Color::White, piece: cfg[x] })
    } else {
        None
    }
}

/// The first file in `lo..hi` of the row that shows `pk`.
pub open spec fn first_of(row: Seq<Option<ColoredPieceKind>>, pk: ColoredPieceKind, lo: int, hi: int) -> Option<int>
    decreases hi - lo,
{
    if hi <= lo {
        None
    } else if row[lo] == Some(pk) {
        Some(lo)
    } else {
        first_of(row, pk, lo + 1, hi)
    }
}

/// The last file in `lo..hi` of the row that shows `pk`.
pub open spec fn last_of(row: Seq<Option<ColoredPieceKind>>, pk: ColoredPieceKind, lo: int, hi: int) -> Option<int>
    decreases hi - lo,
{
    if hi <= lo {
        None
    } else if row[hi - 1] == Some(pk) {
        Some(hi - 1)
    } else {
        last_of(row, pk, lo, hi - 1)
    }
}

/// The rook that takes over a castling right on file `x` that has no rook,
/// with the king on file `k`: the outermost rook of the side on that side of
/// the king.
pub open spec fn replacement_rook(row: Seq<Option<ColoredPieceKind>>, c: Color, k: int, x: int) -> Option<int> {
    let rook = ColoredPieceKind { color: c, piece: PieceKind::Rook };
    if k < x {
        last_of(row, rook, k + 1, 8)
    } else if k > x {
        first_of(row, rook, 0, k)
    } else {
        None
    }
}

/// Whether `c` keeps a castling right on file `f` once the rights are fitted
/// to the grid: none without a king on the home rank; otherwise each right
/// whose file shows a rook of the side stays, and each other one moves to the
/// outermost rook on its side of the king, or goes.
pub open spec fn fixed_right(h: HashableBoard, c: Color, f: int) -> bool {
    let row = h.board@[home_rank_of(c)]@;
    let rook = Some(ColoredPieceKind { color: c, piece: PieceKind::Rook });
    match first_of(row, ColoredPieceKind { color: c, piece: PieceKind::King }, 0, 8) {
        None => false,
        Some(k) => (h.castling_right.has(c, f) && row[f] == rook) || exists|x: int|
            0 <= x < 8 && #[trigger] h.castling_right.has(c, x) && row[x] != rook && replacement_rook(
                row,
                c,
                k,
                x,
            ) == Some(f),
    }
}

/// The first file in `lo..hi` of the row that shows `pk`.
fn find_first(row: &[Option<ColoredPieceKind>; 8], pk: ColoredPieceKind, lo: u8, hi: u8) -> (r: Option<u8>)
    requires
        lo <= hi <= 8,
    ensures
        match r {
            Some(f) => first_of(row@, pk, lo as int, hi as int) == Some(f as int),
            None => first_of(row@, pk, lo as int, hi as int) is None,
        },
    decreases hi - lo,
{
    if hi <= lo {
        None
    } else if row[lo as usize] == Some(pk) {
        Some(lo)
    } else {
        find_first(row, pk, lo + 1, hi)
    }
}

/// The last file in `lo..hi` of the row that shows `pk`.
fn find_last(row: &[Option<ColoredPieceKind>; 8], pk: ColoredPieceKind, lo: u8, hi: u8) -> (r: Option<u8>)
    requires
        lo <= hi <= 8,
    ensures
        match r {
            Some(f) => last_of(row@, pk, lo as int, hi as int) == Some(f as int),
            None => last_of(row@, pk, lo as int, hi as int) is None,
        },
    decreases hi - lo,
{
    if hi <= lo {
        None
    } else if row[(hi - 1) as usize] == Some(pk) {
        Some(hi - 1)
    } else {
        find_last(row, pk, lo, hi - 1)
    }
}

proof fn lemma_first_of_range(row: Seq<Option<ColoredPieceKind>>, pk: ColoredPieceKind, lo: int, hi: int)
    requires
        lo <= hi,
    ensures
        first_of(row, pk, lo, hi) matches Some(f) ==> lo <= f < hi && row[f] == Some(pk),
    decreases hi - lo,
{
    if lo < hi && row[lo] != Some(pk) {
        lemma_first_of_range(row, pk, lo + 1, hi);
    }
}

proof fn lemma_last_of_range(row: Seq<Option<ColoredPieceKind>>, pk: ColoredPieceKind, lo: int, hi: int)
    requires
        lo <= hi,
    ensures
        last_of(row, pk, lo, hi) matches Some(f) ==> lo <= f < hi && row[f] == Some(pk),
    decreases hi - lo,
{
    if lo < hi && row[hi - 1] != Some(pk) {
        lemma_last_of_range(row, pk, lo, hi - 1);
    }
}

/// Fitting the castling rights to the grid leaves a right only where the
/// side's king stands on its home rank and a rook of the side stands on the
/// right's file; a right that already stood on such a rook, with the king on
/// the home rank, stays.
pub proof fn lemma_fixed_rights_on_rooks(h: HashableBoard, c: Color, f: int)
    requires
        0 <= f < 8,
    ensures
        fixed_right(h, c, f) ==> first_of(
            h.board@[home_rank_of(c)]@,
            ColoredPieceKind { color: c, piece: PieceKind::King },
            0,
            8,
        ) is Some && h.board@[home_rank_of(c)]@[f] == Some(ColoredPieceKind { color: c, piece: PieceKind::Rook }),
        first_of(h.board@[home_rank_of(c)]@, ColoredPieceKind { color: c, piece: PieceKind::King }, 0, 8) is Some
            && h.castling_right.has(c, f) && h.board@[home_rank_of(c)]@[f] == Some(
            ColoredPieceKind { color: c, piece: PieceKind::Rook },
        ) ==> fixed_right(h, c, f),
{
    let row = h.board@[home_rank_of(c)]@;
    let rook = ColoredPieceKind { color: c, piece: PieceKind::Rook };
    let king = ColoredPieceKind { color: c, piece: PieceKind::King };
    lemma_first_of_range(row, king, 0, 8);
    if let Some(k) = first_of(row, king, 0, 8) {
        lemma_last_of_range(row, rook, k + 1, 8);
        lemma_first_of_range(row, rook, 0, k);
        if fixed_right(h, c, f) && !(h.castling_right.has(c, f) && row[f] == Some(rook)) {
            let x = choose|x: int|
                0 <= x < 8 && #[trigger] h.castling_right.has(c, x) && row[x] != Some(rook) && replacement_rook(
                    row,
                    c,
                    k,
                    x,
                ) == Some(f);
            assert(row[f] == Some(rook));
        }
    }
}

/// The files from `i` on whose bit is set in `b`.
pub open spec fn bit_files(b: u8, i: int) -> Set<int> {
    Set::new(|f: int| i <= f < 8 && bit(b, f))
}

/// The files a byte lists from `i` on are as many as the files whose bit is set.
proof fn lemma_files_count(b: u8, i: int)
    requires
        0 <= i <= 8,
    ensures
        bit_files(b, i).finite(),
        files_from(b, i).len() == bit_files(b, i).len(),
    decreases 8 - i,
{
    vstd::set_lib::lemma_int_range(i, 8);
    vstd::set_lib::lemma_len_subset(bit_files(b, i), vstd::set_lib::set_int_range(i, 8));
    if i == 8 {
        assert(bit_files(b, i) =~= Set::<int>::empty());
    } else {
        lemma_files_count(b, i + 1);
        if bit(b, i) {
            assert(bit_files(b, i) =~= bit_files(b, i + 1).insert(i));
            assert(!bit_files(b, i + 1).contains(i));
        } else {
            assert(bit_files(b, i) =~= bit_files(b, i + 1));
        }
    }
}

/// Fitting the castling rights to the grid never gives a side more rights
/// than it had: each right left is an old right kept on its rook or moved to
/// a rook in its place.
pub proof fn lemma_fixed_rights_no_more(h: HashableBoard, c: Color, fixed: CastlingRight)
    requires
        forall|f: int| 0 <= f < 8 ==> #[trigger] fixed.has(c, f) == fixed_right(h, c, f),
    ensures
        files_from(fixed.byte_of(c), 0).len() <= files_from(h.castling_right.byte_of(c), 0).len(),
{
    let row = h.board@[home_rank_of(c)]@;
    let rook = Some(ColoredPieceKind { color: c, piece: PieceKind::Rook });
    let king = ColoredPieceKind { color: c, piece: PieceKind::King };
    let new_files = bit_files(fixed.byte_of(c), 0);
    let old_files = bit_files(h.castling_right.byte_of(c), 0);
    lemma_files_count(fixed.byte_of(c), 0);
    lemma_files_count(h.castling_right.byte_of(c), 0);
    let k = match first_of(row, king, 0, 8) {
        Some(k) => k,
        None => 0,
    };
    let moved = |x: int| if row[x] == rook {
        x
    } else {
        match replacement_rook(row, c, k, x) {
            Some(f) => f,
            None => -1,
        }
    };
    vstd::set_lib::lemma_map_size_bound(old_files, old_files.map(moved), moved);
    assert(new_files.subset_of(old_files.map(moved))) by {
        assert forall|f: int| new_files.contains(f) implies old_files.map(moved).contains(f) by {
            assert(fixed.has(c, f));
            assert(fixed_right(h, c, f));
            if h.castling_right.has(c, f) && row[f] == rook {
                assert(old_files.contains(f));
                assert(moved(f) == f);
            } else {
                let x = choose|x: int|
                    0 <= x < 8 && #[trigger] h.castling_right.has(c, x) && row[x] != rook && replacement_rook(
                        row,
                        c,
                        k,
                        x,
                    ) == Some(f);
                assert(old_files.contains(x));
                assert(moved(x) == f);
            }
        }
    }
    vstd::set_lib::lemma_len_subset(new_files, old_files.map(moved));
}

impl HashableBoard {
    /// The starting position whose back ranks follow `configuration`, white
    /// to move, castling allowed with every rook, no en passant target.
    pub fn from_configuration(configuration: [PieceKind; 8]) -> (r: HashableBoard)
        ensures
            forall|x: int, y: int|
                0 <= x < 8 && 0 <= y < 8 ==> #[trigger] r.cell(x, y) == configuration_cell(configuration@, x, y),
            r.current_player == Color::White,
            forall|c: Color, x: int|
                0 <= x < 8 ==> #[trigger] r.castling_right.has(c, x) == (configuration@[x] == PieceKind::Rook),
            r.en_passant_target is None,
    {
        let castling_right = CastlingRight::from_configuration(configuration);
        let mut black_back: [Option<ColoredPieceKind>; 8] = [None; 8];
        let mut white_back: [Option<ColoredPieceKind>; 8] = [None; 8];
        let mut i: usize = 0;
        while i < 8
            invariant
                0 <= i <= 8,
                forall|x: int| 0 <= x < i ==> #[trigger] black_back@[x] == Some(ColoredPieceKind { color: Color::Black, piece: configuration@[x] }),
                forall|x: int| 0 <= x < i ==> #[trigger] white_back@[x] == Some(ColoredPieceKind { color: Color::White, piece: configuration@[x] }),
            decreases 8 - i,
        {
            black_back[i] = Some(ColoredPieceKind::new(Color::Black, configuration[i]));
            white_back[i] = Some(ColoredPieceKind::new(Color::White, configuration[i]));
            i = i + 1;
        }
        let black_pawns = [Some(ColoredPieceKind::new(Color::Black, PieceKind::Pawn)); 8];
        let white_pawns = [Some(ColoredPieceKind::new(Color::White, PieceKind::Pawn)); 8];
        let empty: [Option<ColoredPieceKind>; 8] = [None; 8];
        let board = [black_back, black_pawns, empty, empty, empty, empty, white_pawns, white_back];
        let r = HashableBoard { board, current_player: Color::White, castling_right, en_passant_target: None };
        proof {
            assert forall|x: int, y: int| 0 <= x < 8 && 0 <= y < 8 implies #[trigger] r.cell(x, y) == configuration_cell(configuration@, x, y) by {
                if y == 0 {
                    assert(r.board@[0] == black_back);
                } else if y == 1 {
                    assert(r.board@[1] == black_pawns);
                } else if y == 6 {
                    assert(r.board@[6] == white_pawns);
                } else if y == 7 {
                    assert(r.board@[7] == white_back);
                } else {
                    assert(r.board@[y] == empty);
                }
            }
        }
        r
    }

    /// The standard starting position.
    pub fn starting_position() -> (r: HashableBoard)
        ensures
            forall|x: int, y: int|
                0 <= x < 8 && 0 <= y < 8 ==> #[trigger] r.cell(x, y) == configuration_cell(standard_rank(), x, y),
            r.current_player == Color::White,
            forall|c: Color, x: int| 0 <= x < 8 ==> #[trigger] r.castling_right.has(c, x) == (x == 0 || x == 7),
            r.en_passant_target is None,
    {
        HashableBoard::from_configuration(PieceKind::starting_configuration())
    }

    /// Chess960 starting position number `id`.
    pub fn chess960(id: u16) -> (r: HashableBoard)
        requires
            id < 960,
        ensures
            forall|x: int, y: int|
                0 <= x < 8 && 0 <= y < 8 ==> #[trigger] r.cell(x, y) == configuration_cell(
                    chess960_rank(id as int),
                    x,
                    y,
                ),
            r.current_player == Color::White,
            forall|c: Color, x: int|
                0 <= x < 8 ==> #[trigger] r.castling_right.has(c, x) == (chess960_rank(id as int)[x]
                    == PieceKind::Rook),
            r.en_passant_target is None,
    {
        HashableBoard::from_configuration(PieceKind::chess960(id))
    }

    /// The castling rights of `c` fitted to the grid, as `fixed_right` says;
    /// the rights of the other side are left as they are.
    fn fixed_side(&self, c: Color) -> (r: CastlingRight)
        ensures
            forall|f: int| 0 <= f < 8 ==> #[trigger] r.has(c, f) == fixed_right(*self, c, f),
            r.byte_of(c.other()) == self.castling_right.byte_of(c.other()),
    {
        let home = crate::coord::home_rank(c);
        let row = self.board[home as usize];
        let rook = ColoredPieceKind::new(c, PieceKind::Rook);
        let mut rights = self.castling_right;
        proof {
            assert(row@ == self.board@[home_rank_of(c)]@);
        }
        match find_first(&row, ColoredPieceKind::new(c, PieceKind::King), 0, 8) {
            None => {
                proof {
                    rights.lemma_cleared(c);
                }
                rights.clear(c);
                rights
            },
            Some(k) => {
                proof {
                    lemma_first_of_range(row@, ColoredPieceKind { color: c, piece: PieceKind::King }, 0, 8);
                }
                let mut x: u8 = 0;
                while x < 8
                    invariant
                        0 <= x <= 8,
                        k < 8,
                        row@ == self.board@[home_rank_of(c)]@,
                        row@[k as int] == Some(ColoredPieceKind { color: c, piece: PieceKind::King }),
                        first_of(row@, ColoredPieceKind { color: c, piece: PieceKind::King }, 0, 8) == Some(k as int),
                        rook == (ColoredPieceKind { color: c, piece: PieceKind::Rook }),
                        rights.byte_of(c.other()) == self.castling_right.byte_of(c.other()),
                        forall|f: int|
                            0 <= f < 8 ==> #[trigger] rights.has(c, f) == ((self.castling_right.has(c, f) && (f
                                >= x || row@[f] == Some(rook))) || exists|y: int|
                                0 <= y < x && #[trigger] self.castling_right.has(c, y) && row@[y] != Some(rook)
                                    && replacement_rook(row@, c, k as int, y) == Some(f)),
                    decreases 8 - x,
                {
                    if self.castling_right.get(c, x) && row[x as usize] != Some(rook) {
                        let found = if k < x {
                            find_last(&row, rook, k + 1, 8)
                        } else if k > x {
                            find_first(&row, rook, 0, k)
                        } else {
                            None
                        };
                        proof {
                            lemma_first_of_range(row@, rook, 0, k as int);
                            lemma_last_of_range(row@, rook, k + 1, 8);
                            assert(found matches Some(f) ==> replacement_rook(row@, c, k as int, x as int) == Some(f as int));
                            assert(found is None ==> replacement_rook(row@, c, k as int, x as int) is None);
                            rights.lemma_removed(c, x as int);
                        }
                        let ghost before = rights;
                        rights.remove(c, x);
                        match found {
                            Some(f) => {
                                proof {
                                    rights.lemma_added(c, f as int);
                                }
                                rights.add(c, f);
                            },
                            None => {},
                        }
                        proof {
                            assert forall|f: int|
                                0 <= f < 8 implies #[trigger] rights.has(c, f) == ((self.castling_right.has(c, f) && (f
                                    >= x + 1 || row@[f] == Some(rook))) || exists|y: int|
                                    0 <= y < x + 1 && #[trigger] self.castling_right.has(c, y) && row@[y] != Some(rook)
                                        && replacement_rook(row@, c, k as int, y) == Some(f)) by {
                                assert(before.has(c, f) == ((self.castling_right.has(c, f) && (f >= x || row@[f] == Some(rook)))
                                    || exists|y: int|
                                    0 <= y < x && #[trigger] self.castling_right.has(c, y) && row@[y] != Some(rook)
                                        && replacement_rook(row@, c, k as int, y) == Some(f)));
                                if exists|y: int|
                                    0 <= y < x + 1 && #[trigger] self.castling_right.has(c, y) && row@[y] != Some(rook)
                                        && replacement_rook(row@, c, k as int, y) == Some(f) {
                                    let y = choose|y: int|
                                        0 <= y < x + 1 && #[trigger] self.castling_right.has(c, y) && row@[y] != Some(rook)
                                            && replacement_rook(row@, c, k as int, y) == Some(f);
                                    lemma_first_of_range(row@, rook, 0, k as int);
                                    lemma_last_of_range(row@, rook, k + 1, 8);
                                    assert(row@[f] == Some(rook));
                                    if y < x {
                                        assert(0 <= y < x && self.castling_right.has(c, y) && row@[y] != Some(rook)
                                            && replacement_rook(row@, c, k as int, y) == Some(f));
                                    }
                                }
                            }
                        }
                    }
                    x = x + 1;
                }
                proof {
                    assert forall|f: int| 0 <= f < 8 implies #[trigger] rights.has(c, f) == fixed_right(*self, c, f) by {
                        assert(rights.has(c, f) == ((self.castling_right.has(c, f) && (f >= 8 || row@[f] == Some(rook)))
                            || exists|y: int|
                            0 <= y < 8 && #[trigger] self.castling_right.has(c, y) && row@[y] != Some(rook)
                                && replacement_rook(row@, c, k as int, y) == Some(f)));
                    }
                }
                rights
            },
        }
    }

    /// Fits the castling rights to the grid, side by side, as `fixed_right` says.
    pub fn fix_castling_rights(&mut self)
        ensures
            final(self).board == old(self).board,
            final(self).current_player == old(self).current_player,
            final(self).en_passant_target == old(self).en_passant_target,
            forall|c: Color, f: int|
                0 <= f < 8 ==> #[trigger] final(self).castling_right.has(c, f) == fixed_right(*old(self), c, f),
    {
        let white = self.fixed_side(Color::White);
        let black = self.fixed_side(Color::Black);
        self.castling_right = CastlingRight { white: white.white, black: black.black };
        proof {
            assert forall|c: Color, f: int| 0 <= f < 8 implies #[trigger] self.castling_right.has(c, f) == fixed_right(*old(self), c, f) by {
                match c {
                    Color::White => assert(white.has(Color::White, f) == fixed_right(*old(self), c, f)),
                    Color::Black => assert(black.has(Color::Black, f) == fixed_right(*old(self), c, f)),
                }
            }
        }
    }
}

} // verus!
