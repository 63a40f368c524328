use vstd::prelude::*;
use crate::color::{Color, InvalidByte};
use crate::coord::Coord;

verus! {

/// The six kinds of chess pieces.
#[derive(Debug, Clone, Copy, PartialEq, Eq, Hash, Structural)]
pub enum PieceKind {
    Pawn,
    Knight,
    Bishop,
    Rook,
    Queen,
    King,
}

/// Error returned when a character is not a FEN piece letter.
#[derive(Debug, Clone, Copy, PartialEq, Eq, Hash, Structural)]
pub struct InvalidFenPiece(pub char);

/// The uppercase FEN letter of a piece kind.
pub open spec fn upper_letter(p: PieceKind) -> char {
    match p {
        PieceKind::Pawn => 'P',
        PieceKind::Knight => 'N',
        PieceKind::Bishop => 'B',
        PieceKind::Rook => 'R',
        PieceKind::Queen => 'Q',
        PieceKind::King => 'K',
    }
}

/// The lowercase FEN letter of a piece kind.
pub open spec fn lower_letter(p: PieceKind) -> char {
    match p {
        PieceKind::Pawn => 'p',
        PieceKind::Knight => 'n',
        PieceKind::Bishop => 'b',
        PieceKind::Rook => 'r',
        PieceKind::Queen => 'q',
        PieceKind::King => 'k',
    }
}

/// The piece kind that a FEN letter of either case names, if any.
pub open spec fn kind_of_letter(c: char) -> Option<PieceKind> {
    if c == 'p' || c == 'P' {
        Some(PieceKind::Pawn)
    } else if c == 'n' || c == 'N' {
        Some(PieceKind::Knight)
    } else if c == 'b' || c == 'B' {
        Some(PieceKind::Bishop)
    } else if c == 'r' || c == 'R' {
        Some(PieceKind::Rook)
    } else if c == 'q' || c == 'Q' {
        Some(PieceKind::Queen)
    } else if c == 'k' || c == 'K' {
        Some(PieceKind::King)
    } else {
        None
    }
}

/// Byte encoding of piece kinds: pawn 1, knight 2, bishop 3, rook 4, queen 5, king 6.
pub open spec fn kind_byte(p: PieceKind) -> u8 {
    match p {
        PieceKind::Pawn => 1,
        PieceKind::Knight => 2,
        PieceKind::Bishop => 3,
        PieceKind::Rook => 4,
        PieceKind::Queen => 5,
        PieceKind::King => 6,
    }
}

/// Index of the `n`-th cell at or after `i` that still holds the placeholder
/// (a pawn), or -1 when there is none.
pub open spec fn nth_free_from(c: Seq<PieceKind>, n: int, i: int) -> int
    decreases c.len() - i,
{
    if i < 0 || i >= c.len() {
        -1
    } else if c[i] == PieceKind::Pawn {
        if n == 0 {
            i
        } else {
            nth_free_from(c, n - 1, i + 1)
        }
    } else {
        nth_free_from(c, n, i + 1)
    }
}

/// Index of the `n`-th free cell of a back rank under construction.
pub open spec fn nth_free(c: Seq<PieceKind>, n: int) -> int {
    nth_free_from(c, n, 0)
}

/// Number of free cells at or after `i`.
pub open spec fn free_count_from(c: Seq<PieceKind>, i: int) -> int
    decreases c.len() - i,
{
    if i < 0 || i >= c.len() {
        0
    } else {
        (if c[i] == PieceKind::Pawn { 1int } else { 0int }) + free_count_from(c, i + 1)
    }
}

/// Fills the free cells at or after `i` with rook, king, rook, ... in turn,
/// where `king_next` says whether the next one is the king.
pub open spec fn fill_rook_king(c: Seq<PieceKind>, i: int, king_next: bool) -> Seq<PieceKind>
    decreases c.len() - i,
{
    if i < 0 || i >= c.len() {
        c
    } else if c[i] == PieceKind::Pawn {
        fill_rook_king(
            c.update(i, if king_next { PieceKind::King } else { PieceKind::Rook }),
            i + 1,
            !king_next,
        )
    } else {
        fill_rook_king(c, i + 1, king_next)
    }
}

/// The two knight slots (among the five cells left after the queen) for a
/// knight code from 0 to 9.
pub open spec fn knight_slots(n: int) -> (int, int) {
    if 0 <= n < 4 {
        (n, 4)
    } else if 4 <= n < 7 {
        (n - 4, 3)
    } else if 7 <= n < 9 {
        (n - 7, 2)
    } else {
        (0, 1)
    }
}

/// The back rank of the Chess960 starting position number `id` (0 to 959):
/// light-square bishop on file `2 * (id % 4)`, dark-square bishop on file
/// `2 * (id / 4 % 4) + 1`, queen on the `(id / 16 % 6)`-th free file, knights
/// on the free files given by `knight_slots(id / 96)`, and rook, king, rook on
/// the three files left, from left to right.
pub open spec fn chess960_rank(id: int) -> Seq<PieceKind> {
    let b1 = id % 4;
    let b2 = (id / 4) % 4;
    let q = (id / 16) % 6;
    let k = id / 96;
    let s0 = Seq::new(8, |i: int| PieceKind::Pawn);
    let s1 = s0.update(2 * b1, PieceKind::Bishop).update(2 * b2 + 1, PieceKind::Bishop);
    let s2 = s1.update(nth_free(s1, q), PieceKind::Queen);
    let (a, b) = knight_slots(k);
    let s3 = s2.update(nth_free(s2, a), PieceKind::Knight).update(
        nth_free(s2, b),
        PieceKind::Knight,
    );
    fill_rook_king(s3, 0, false)
}

proof fn lemma_nth_free_found(c: Seq<PieceKind>, n: int, i: int)
    requires
        0 <= i <= c.len(),
        0 <= n < free_count_from(c, i),
    ensures
        i <= nth_free_from(c, n, i) < c.len(),
        c[nth_free_from(c, n, i)] == PieceKind::Pawn,
    decreases c.len() - i,
{
    if i < c.len() {
        if c[i] == PieceKind::Pawn {
            if n > 0 {
                lemma_nth_free_found(c, n - 1, i + 1);
            }
        } else {
            lemma_nth_free_found(c, n, i + 1);
        }
    }
}

proof fn lemma_nth_free_injective(c: Seq<PieceKind>, n: int, m: int, i: int)
    requires
        0 <= i <= c.len(),
        0 <= n < m < free_count_from(c, i),
    ensures
        nth_free_from(c, n, i) < nth_free_from(c, m, i),
    decreases c.len() - i,
{
    if i < c.len() {
        if c[i] == PieceKind::Pawn {
            if n > 0 {
                lemma_nth_free_injective(c, n - 1, m - 1, i + 1);
            } else {
                lemma_nth_free_found(c, m - 1, i + 1);
            }
        } else {
            lemma_nth_free_injective(c, n, m, i + 1);
        }
    }
}

proof fn lemma_free_count_update(c: Seq<PieceKind>, j: int, p: PieceKind, i: int)
    requires
        0 <= i <= c.len(),
        0 <= j < c.len(),
        c[j] == PieceKind::Pawn,
        p != PieceKind::Pawn,
    ensures
        free_count_from(c.update(j, p), i) == free_count_from(c, i) - (if i <= j { 1int } else { 0int }),
    decreases c.len() - i,
{
    if i < c.len() {
        lemma_free_count_update(c, j, p, i + 1);
    }
}

proof fn lemma_free_count_bound(c: Seq<PieceKind>, i: int)
    requires
        0 <= i <= c.len(),
    ensures
        0 <= free_count_from(c, i) <= c.len() - i,
    decreases c.len() - i,
{
    if i < c.len() {
        lemma_free_count_bound(c, i + 1);
    }
}

proof fn lemma_all_free_count(c: Seq<PieceKind>, i: int)
    requires
        0 <= i <= c.len(),
        forall|j: int| 0 <= j < c.len() ==> c[j] == PieceKind::Pawn,
    ensures
        free_count_from(c, i) == c.len() - i,
    decreases c.len() - i,
{
    if i < c.len() {
        lemma_all_free_count(c, i + 1);
    }
}

/// Number of cells among the first `n` of a rank that hold `k`.
pub open spec fn kind_count(c: Seq<PieceKind>, k: PieceKind, n: int) -> int
    decreases n,
{
    if n <= 0 {
        0
    } else {
        kind_count(c, k, n - 1) + if c[n - 1] == k {
            1int
        } else {
            0int
        }
    }
}

/// The back rank of the standard starting position, from the a-file to the h-file.
pub open spec fn standard_rank() -> Seq<PieceKind> {
    seq![
        PieceKind::Rook,
        PieceKind::Knight,
        PieceKind::Bishop,
        PieceKind::Queen,
        PieceKind::King,
        PieceKind::Bishop,
        PieceKind::Knight,
        PieceKind::Rook,
    ]
}

/// A back rank of eight cells holding one king, one queen, two rooks, two
/// bishops and two knights (and so no pawn).
pub open spec fn full_back_rank(c: Seq<PieceKind>) -> bool {
    &&& c.len() == 8
    &&& kind_count(c, PieceKind::King, 8) == 1
    &&& kind_count(c, PieceKind::Queen, 8) == 1
    &&& kind_count(c, PieceKind::Rook, 8) == 2
    &&& kind_count(c, PieceKind::Bishop, 8) == 2
    &&& kind_count(c, PieceKind::Knight, 8) == 2
    &&& kind_count(c, PieceKind::Pawn, 8) == 0
}

/// The rank obeys the Chess960 rules: its bishops stand on squares of both
/// colours and its king stands between its rooks.
pub open spec fn chess960_rules(c: Seq<PieceKind>) -> bool {
    &&& exists|i: int, j: int|
        0 <= i < 8 && 0 <= j < 8 && i % 2 == 0 && j % 2 == 1 && #[trigger] c[i] == PieceKind::Bishop
            && #[trigger] c[j] == PieceKind::Bishop
    &&& exists|r1: int, k: int, r2: int|
        0 <= r1 < k < r2 < 8 && #[trigger] c[r1] == PieceKind::Rook && #[trigger] c[k] == PieceKind::King
            && #[trigger] c[r2] == PieceKind::Rook
}

proof fn lemma_kind_count_update(c: Seq<PieceKind>, j: int, p: PieceKind, k: PieceKind, n: int)
    requires
        0 <= j < c.len(),
        0 <= n <= c.len(),
    ensures
        kind_count(c.update(j, p), k, n) == kind_count(c, k, n) - (if j < n && c[j] == k {
            1int
        } else {
            0int
        }) + (if j < n && p == k {
            1int
        } else {
            0int
        }),
    decreases n,
{
    if n > 0 {
        lemma_kind_count_update(c, j, p, k, n - 1);
    }
}

proof fn lemma_free_is_pawn_count(c: Seq<PieceKind>, i: int)
    requires
        0 <= i <= c.len(),
    ensures
        free_count_from(c, i) + kind_count(c, PieceKind::Pawn, i) == kind_count(
            c,
            PieceKind::Pawn,
            c.len() as int,
        ),
    decreases c.len() - i,
{
    if i < c.len() {
        lemma_free_is_pawn_count(c, i + 1);
    }
}

/// A kind that occurs among the first `n` cells occurs at some file.
pub proof fn lemma_kind_found(c: Seq<PieceKind>, k: PieceKind, n: int)
    requires
        kind_count(c, k, n) > 0,
    ensures
        exists|i: int| 0 <= i < n && c[i] == k,
    decreases n,
{
    if n > 0 && c[n - 1] != k {
        lemma_kind_found(c, k, n - 1);
    }
}

/// A kind that occurs nowhere among the first `n` cells.
pub proof fn lemma_kind_absent(c: Seq<PieceKind>, k: PieceKind, n: int, i: int)
    requires
        kind_count(c, k, n) == 0,
        0 <= i < n,
    ensures
        c[i] != k,
    decreases n,
{
    lemma_kind_count_nonneg(c, k, n - 1);
    if i < n - 1 {
        lemma_kind_absent(c, k, n - 1, i);
    }
}

proof fn lemma_kind_count_nonneg(c: Seq<PieceKind>, k: PieceKind, n: int)
    ensures
        kind_count(c, k, n) >= 0,
    decreases n,
{
    if n > 0 {
        lemma_kind_count_nonneg(c, k, n - 1);
    }
}

/// How many rooks, kings and pawns filling `f` free cells adds or removes.
pub open spec fn fill_delta(k: PieceKind, f: int, king_next: bool) -> int {
    match k {
        PieceKind::Pawn => -f,
        PieceKind::King => if king_next {
            (f + 1) / 2
        } else {
            f / 2
        },
        PieceKind::Rook => if king_next {
            f / 2
        } else {
            (f + 1) / 2
        },
        _ => 0,
    }
}

proof fn lemma_fill_counts(c: Seq<PieceKind>, i: int, king_next: bool, k: PieceKind)
    requires
        0 <= i <= c.len(),
    ensures
        fill_rook_king(c, i, king_next).len() == c.len(),
        kind_count(fill_rook_king(c, i, king_next), k, c.len() as int) == kind_count(c, k, c.len() as int)
            + fill_delta(k, free_count_from(c, i), king_next),
        forall|j: int|
            0 <= j < c.len() && (j < i || c[j] != PieceKind::Pawn) ==> #[trigger] fill_rook_king(
                c,
                i,
                king_next,
            )[j] == c[j],
    decreases c.len() - i,
{
    if i < c.len() {
        if c[i] == PieceKind::Pawn {
            let x = if king_next {
                PieceKind::King
            } else {
                PieceKind::Rook
            };
            let c2 = c.update(i, x);
            lemma_fill_counts(c2, i + 1, !king_next, k);
            lemma_kind_count_update(c, i, x, k, c.len() as int);
            lemma_free_count_update(c, i, x, i + 1);
        } else {
            lemma_fill_counts(c, i + 1, king_next, k);
        }
    }
}

proof fn lemma_fill_free(c: Seq<PieceKind>, i: int, king_next: bool, n: int)
    requires
        0 <= i <= c.len(),
        0 <= n < free_count_from(c, i),
    ensures
        fill_rook_king(c, i, king_next)[nth_free_from(c, n, i)] == if king_next == (n % 2 == 0) {
            PieceKind::King
        } else {
            PieceKind::Rook
        },
    decreases c.len() - i,
{
    if i < c.len() {
        if c[i] == PieceKind::Pawn {
            let x = if king_next {
                PieceKind::King
            } else {
                PieceKind::Rook
            };
            let c2 = c.update(i, x);
            lemma_free_count_update(c, i, x, i + 1);
            lemma_fill_counts(c2, i + 1, !king_next, x);
            if n > 0 {
                assert(nth_free_from(c2, n - 1, i + 1) == nth_free_from(c, n - 1, i + 1)) by {
                    lemma_nth_free_shift(c, i, x, n - 1, i + 1);
                }
                lemma_fill_free(c2, i + 1, !king_next, n - 1);
            }
        } else {
            lemma_fill_free(c, i + 1, king_next, n);
        }
    }
}

proof fn lemma_nth_free_shift(c: Seq<PieceKind>, j: int, p: PieceKind, n: int, i: int)
    requires
        0 <= j < i,
        i <= c.len(),
    ensures
        nth_free_from(c.update(j, p), n, i) == nth_free_from(c, n, i),
    decreases c.len() - i,
{
    if i < c.len() {
        lemma_nth_free_shift(c, j, p, if c[i] == PieceKind::Pawn { n - 1 } else { n }, i + 1);
    }
}

/// Every Chess960 starting rank holds the full set of back-rank pieces,
/// with bishops on both colours and the king between the rooks.
pub proof fn lemma_chess960_rank(id: int)
    requires
        0 <= id < 960,
    ensures
        full_back_rank(chess960_rank(id)),
        chess960_rules(chess960_rank(id)),
{
    let b1 = id % 4;
    let b2 = (id / 4) % 4;
    let q = (id / 16) % 6;
    let kn = id / 96;
    let s0 = Seq::new(8, |i: int| PieceKind::Pawn);
    let s1a = s0.update(2 * b1, PieceKind::Bishop);
    let s1 = s1a.update(2 * b2 + 1, PieceKind::Bishop);
    let qp = nth_free(s1, q);
    let s2 = s1.update(qp, PieceKind::Queen);
    let (a, b) = knight_slots(kn);
    let ap = nth_free(s2, a);
    let bp = nth_free(s2, b);
    let s3a = s2.update(ap, PieceKind::Knight);
    let s3 = s3a.update(bp, PieceKind::Knight);
    let r = chess960_rank(id);
    assert(r == fill_rook_king(s3, 0, false));
    lemma_all_free_count(s0, 0);
    lemma_free_count_update(s0, 2 * b1, PieceKind::Bishop, 0);
    lemma_free_count_update(s1a, 2 * b2 + 1, PieceKind::Bishop, 0);
    lemma_nth_free_found(s1, q, 0);
    lemma_free_count_update(s1, qp, PieceKind::Queen, 0);
    lemma_nth_free_found(s2, a, 0);
    lemma_nth_free_found(s2, b, 0);
    lemma_nth_free_injective(s2, a, b, 0);
    lemma_free_count_update(s2, ap, PieceKind::Knight, 0);
    lemma_free_count_update(s3a, bp, PieceKind::Knight, 0);
    assert forall|k: PieceKind| #[trigger] kind_count(r, k, 8) == kind_count(s3, k, 8) + fill_delta(k, 3, false) by {
        lemma_fill_counts(s3, 0, false, k);
    }
    assert forall|k: PieceKind| #[trigger] kind_count(s3, k, 8) == (match k {
        PieceKind::Pawn => 3int,
        PieceKind::Bishop => 2,
        PieceKind::Queen => 1,
        PieceKind::Knight => 2,
        _ => 0,
    }) by {
        assert(kind_count(s0, k, 8) == if k == PieceKind::Pawn { 8int } else { 0int }) by {
            reveal_with_fuel(kind_count, 9);
        }
        lemma_kind_count_update(s0, 2 * b1, PieceKind::Bishop, k, 8);
        lemma_kind_count_update(s1a, 2 * b2 + 1, PieceKind::Bishop, k, 8);
        lemma_kind_count_update(s1, qp, PieceKind::Queen, k, 8);
        lemma_kind_count_update(s2, ap, PieceKind::Knight, k, 8);
        lemma_kind_count_update(s3a, bp, PieceKind::Knight, k, 8);
    }
    assert(kind_count(r, PieceKind::King, 8) == 1);
    assert(kind_count(r, PieceKind::Queen, 8) == 1);
    assert(kind_count(r, PieceKind::Rook, 8) == 2);
    assert(kind_count(r, PieceKind::Bishop, 8) == 2);
    assert(kind_count(r, PieceKind::Knight, 8) == 2);
    assert(kind_count(r, PieceKind::Pawn, 8) == 0);
    lemma_fill_counts(s3, 0, false, PieceKind::Pawn);
    assert(r[2 * b1] == PieceKind::Bishop && r[2 * b2 + 1] == PieceKind::Bishop);
    lemma_free_is_pawn_count(s3, 0);
    assert(free_count_from(s3, 0) == 3);
    lemma_nth_free_injective(s3, 0, 1, 0);
    lemma_nth_free_injective(s3, 1, 2, 0);
    lemma_nth_free_found(s3, 0, 0);
    lemma_nth_free_found(s3, 2, 0);
    lemma_fill_free(s3, 0, false, 0);
    lemma_fill_free(s3, 0, false, 1);
    lemma_fill_free(s3, 0, false, 2);
    let r1 = nth_free(s3, 0);
    let kp = nth_free(s3, 1);
    let r2 = nth_free(s3, 2);
    assert(r[r1] == PieceKind::Rook && r[kp] == PieceKind::King && r[r2] == PieceKind::Rook);
}

/// Filling the free cells puts a rook or a king on each of them.
proof fn lemma_fill_rook_king_only(c: Seq<PieceKind>, i: int, king_next: bool)
    requires
        0 <= i <= c.len(),
    ensures
        forall|j: int|
            i <= j < c.len() && c[j] == PieceKind::Pawn ==> #[trigger] fill_rook_king(c, i, king_next)[j]
                == PieceKind::Rook || fill_rook_king(c, i, king_next)[j] == PieceKind::King,
    decreases c.len() - i,
{
    if i < c.len() {
        if c[i] == PieceKind::Pawn {
            let x = if king_next {
                PieceKind::King
            } else {
                PieceKind::Rook
            };
            let c2 = c.update(i, x);
            lemma_fill_rook_king_only(c2, i + 1, !king_next);
            lemma_fill_counts(c2, i + 1, !king_next, x);
            assert(fill_rook_king(c2, i + 1, !king_next)[i] == x);
        } else {
            lemma_fill_rook_king_only(c, i + 1, king_next);
        }
    }
}

/// The bishops of Chess960 rank `id`, on otherwise free cells.
pub open spec fn chess960_bishops(id: int) -> Seq<PieceKind> {
    Seq::new(8, |i: int| PieceKind::Pawn).update(2 * (id % 4), PieceKind::Bishop).update(
        2 * ((id / 4) % 4) + 1,
        PieceKind::Bishop,
    )
}

/// The bishops and the queen of Chess960 rank `id`, on otherwise free cells.
pub open spec fn chess960_queen(id: int) -> Seq<PieceKind> {
    chess960_bishops(id).update(nth_free(chess960_bishops(id), (id / 16) % 6), PieceKind::Queen)
}

/// Where the bishops, the queen and the knights of Chess960 rank `id` stand.
proof fn lemma_chess960_cells(id: int)
    requires
        0 <= id < 960,
    ensures
        chess960_bishops(id).len() == 8,
        chess960_queen(id).len() == 8,
        free_count_from(chess960_bishops(id), 0) == 6,
        free_count_from(chess960_queen(id), 0) == 5,
        nth_free(chess960_queen(id), knight_slots(id / 96).0) < nth_free(
            chess960_queen(id),
            knight_slots(id / 96).1,
        ),
        forall|p: int|
            0 <= p < 8 ==> (#[trigger] chess960_rank(id)[p] == PieceKind::Bishop <==> (p == 2 * (id % 4) || p == 2
                * ((id / 4) % 4) + 1)),
        forall|p: int|
            0 <= p < 8 ==> (#[trigger] chess960_rank(id)[p] == PieceKind::Queen <==> p == nth_free(
                chess960_bishops(id),
                (id / 16) % 6,
            )),
        forall|p: int|
            0 <= p < 8 ==> (#[trigger] chess960_rank(id)[p] == PieceKind::Knight <==> (p == nth_free(
                chess960_queen(id),
                knight_slots(id / 96).0,
            ) || p == nth_free(chess960_queen(id), knight_slots(id / 96).1))),
{
    let b1 = id % 4;
    let b2 = (id / 4) % 4;
    let q = (id / 16) % 6;
    let kn = id / 96;
    let s0 = Seq::new(8, |i: int| PieceKind::Pawn);
    let s1a = s0.update(2 * b1, PieceKind::Bishop);
    let s1 = s1a.update(2 * b2 + 1, PieceKind::Bishop);
    assert(s1 == chess960_bishops(id));
    let qp = nth_free(s1, q);
    let s2 = s1.update(qp, PieceKind::Queen);
    assert(s2 == chess960_queen(id));
    let (a, b) = knight_slots(kn);
    let ap = nth_free(s2, a);
    let bp = nth_free(s2, b);
    let s3a = s2.update(ap, PieceKind::Knight);
    let s3 = s3a.update(bp, PieceKind::Knight);
    let r = chess960_rank(id);
    assert(r == fill_rook_king(s3, 0, false));
    lemma_all_free_count(s0, 0);
    lemma_free_count_update(s0, 2 * b1, PieceKind::Bishop, 0);
    lemma_free_count_update(s1a, 2 * b2 + 1, PieceKind::Bishop, 0);
    lemma_nth_free_found(s1, q, 0);
    lemma_free_count_update(s1, qp, PieceKind::Queen, 0);
    lemma_nth_free_found(s2, a, 0);
    lemma_nth_free_found(s2, b, 0);
    lemma_nth_free_injective(s2, a, b, 0);
    lemma_fill_counts(s3, 0, false, PieceKind::Pawn);
    lemma_fill_rook_king_only(s3, 0, false);
    assert forall|p: int| 0 <= p < 8 implies (#[trigger] r[p] == PieceKind::Bishop <==> (p == 2 * b1 || p == 2 * b2
        + 1)) && (r[p] == PieceKind::Queen <==> p == qp) && (r[p] == PieceKind::Knight <==> (p == ap || p == bp)) by {
        if s3[p] == PieceKind::Pawn {
            assert(r[p] == PieceKind::Rook || r[p] == PieceKind::King);
        } else {
            assert(r[p] == s3[p]);
        }
    }
}

/// A Chess960 number is made of its four parts.
proof fn lemma_chess960_id_parts(id: int)
    requires
        0 <= id < 960,
    ensures
        id == id % 4 + 4 * ((id / 4) % 4) + 16 * ((id / 16) % 6) + 96 * (id / 96),
        0 <= id / 96 < 10,
{
    assert(id == id % 4 + 4 * ((id / 4) % 4) + 16 * ((id / 16) % 6) + 96 * (id / 96)) by (nonlinear_arith)
        requires
            0 <= id < 960,
    ;
}

/// Different knight codes place the knights differently.
proof fn lemma_knight_slots_differ(k1: int, k2: int)
    requires
        0 <= k1 < 10,
        0 <= k2 < 10,
        knight_slots(k1) == knight_slots(k2),
    ensures
        k1 == k2,
{
}

/// The 960 Chess960 starting ranks are all different: a rank tells where its
/// bishops, queen and knights stand, and these give back its number.
#[verifier::spinoff_prover]
pub proof fn lemma_chess960_ranks_differ(i: int, j: int)
    requires
        0 <= i < 960,
        0 <= j < 960,
        chess960_rank(i) == chess960_rank(j),
    ensures
        i == j,
{
    lemma_chess960_cells(i);
    lemma_chess960_cells(j);
    lemma_chess960_id_parts(i);
    lemma_chess960_id_parts(j);
    let r = chess960_rank(i);
    let b1i = i % 4;
    let b2i = (i / 4) % 4;
    let b1j = j % 4;
    let b2j = (j / 4) % 4;
    assert(b1i == b1j && b2i == b2j) by {
        assert(r[2 * b1i] == PieceKind::Bishop);
        assert(r[2 * b2i + 1] == PieceKind::Bishop);
        assert(r[2 * b1j] == PieceKind::Bishop);
        assert(r[2 * b2j + 1] == PieceKind::Bishop);
    }
    assert(chess960_bishops(i) == chess960_bishops(j));
    let s1 = chess960_bishops(i);
    let qi = (i / 16) % 6;
    let qj = (j / 16) % 6;
    assert(qi == qj) by {
        lemma_nth_free_found(s1, qi, 0);
        lemma_nth_free_found(s1, qj, 0);
        assert(r[nth_free(s1, qi)] == PieceKind::Queen);
        if qi < qj {
            lemma_nth_free_injective(s1, qi, qj, 0);
        } else if qj < qi {
            lemma_nth_free_injective(s1, qj, qi, 0);
        }
    }
    assert(chess960_queen(i) == chess960_queen(j));
    let s2 = chess960_queen(i);
    let ki = i / 96;
    let kj = j / 96;
    assert(knight_slots(ki) == knight_slots(kj)) by {
        let (ai, bi) = knight_slots(ki);
        let (aj, bj) = knight_slots(kj);
        assert(s2.len() == 8);
        assert(r == chess960_rank(j));
        assert(0 <= ai < bi < 5 && 0 <= aj < bj < 5);
        lemma_nth_free_found(s2, ai, 0);
        lemma_nth_free_found(s2, bi, 0);
        lemma_nth_free_found(s2, aj, 0);
        lemma_nth_free_found(s2, bj, 0);
        assert(r[nth_free(s2, ai)] == PieceKind::Knight && r[nth_free(s2, bi)] == PieceKind::Knight);
        assert(r[nth_free(s2, aj)] == PieceKind::Knight && r[nth_free(s2, bj)] == PieceKind::Knight);
        assert(nth_free(s2, ai) == nth_free(s2, aj) && nth_free(s2, bi) == nth_free(s2, bj));
        if ai < aj {
            lemma_nth_free_injective(s2, ai, aj, 0);
        } else if aj < ai {
            lemma_nth_free_injective(s2, aj, ai, 0);
        }
        if bi < bj {
            lemma_nth_free_injective(s2, bi, bj, 0);
        } else if bj < bi {
            lemma_nth_free_injective(s2, bj, bi, 0);
        }
    }
    lemma_knight_slots_differ(ki, kj);
}

/// The standard starting rank holds the full set of back-rank pieces and
/// obeys the Chess960 rules.
pub proof fn lemma_standard_rank()
    ensures
        full_back_rank(standard_rank()),
        chess960_rules(standard_rank()),
{
    let c = standard_rank();
    reveal_with_fuel(kind_count, 9);
    assert(c[2] == PieceKind::Bishop && c[5] == PieceKind::Bishop);
    assert(c[0] == PieceKind::Rook && c[4] == PieceKind::King && c[7] == PieceKind::Rook);
}

fn free_position(configuration: &[PieceKind; 8], index: u16) -> (r: usize)
    requires
        (index as int) < free_count_from(configuration@, 0),
    ensures
        r as int == nth_free(configuration@, index as int),
        r < 8,
        configuration@[r as int] == PieceKind::Pawn,
{
    proof {
        lemma_nth_free_found(configuration@, index as int, 0);
    }
    let mut i: usize = 0;
    let mut left: u16 = index;
    while i < 8
        invariant
            0 <= i <= 8,
            configuration@.len() == 8,
            left <= index,
            nth_free_from(configuration@, left as int, i as int) == nth_free(
                configuration@,
                index as int,
            ),
            0 <= nth_free(configuration@, index as int) < 8,
        decreases 8 - i,
    {
        if configuration[i] == PieceKind::Pawn {
            if left == 0 {
                return i;
            }
            left = left - 1;
        }
        i = i + 1;
    }
    // the search cannot run off the end of the rank
    proof {
        assert(nth_free_from(configuration@, left as int, 8) == -1);
    }
    i
}

impl PieceKind {
    /// The choices a pawn may promote to, in the order they are offered.
    pub fn promotion_choices() -> (r: [PieceKind; 4])
        ensures
            r@ == seq![PieceKind::Queen, PieceKind::Rook, PieceKind::Bishop, PieceKind::Knight],
    {
        let r = [PieceKind::Queen, PieceKind::Rook, PieceKind::Bishop, PieceKind::Knight];
        proof {
            assert(r@ =~= seq![PieceKind::Queen, PieceKind::Rook, PieceKind::Bishop, PieceKind::Knight]);
        }
        r
    }

    /// The back rank of the standard starting position, from the a-file to the h-file.
    pub fn starting_configuration() -> (r: [PieceKind; 8])
        ensures
            r@ == standard_rank(),
    {
        let r = [
            PieceKind::Rook,
            PieceKind::Knight,
            PieceKind::Bishop,
            PieceKind::Queen,
            PieceKind::King,
            PieceKind::Bishop,
            PieceKind::Knight,
            PieceKind::Rook,
        ];
        proof {
            assert(r@ =~= standard_rank());
        }
        r
    }

    /// The back rank of Chess960 starting position number `id`.
    pub fn chess960(id: u16) -> (r: [PieceKind; 8])
        requires
            id < 960,
        ensures
            r@ == chess960_rank(id as int),
    {
        let mut state = id;
        let bishop_1 = state % 4;
        state = state / 4;
        let bishop_2 = state % 4;
        state = state / 4;
        let queen = state % 6;
        state = state / 6;
        let knights = state;
        assert(knights < 10);

        let mut configuration = [PieceKind::Pawn;8];
        let ghost s0 = configuration@;
        proof {
            assert(s0 =~= Seq::new(8, |i: int| PieceKind::Pawn));
            lemma_all_free_count(s0, 0);
        }
        configuration[bishop_1 as usize * 2] = PieceKind::Bishop;
        proof {
            lemma_free_count_update(s0, bishop_1 * 2, PieceKind::Bishop, 0);
        }
        let ghost s1a = configuration@;
        configuration[bishop_2 as usize * 2 + 1] = PieceKind::Bishop;
        proof {
            lemma_free_count_update(s1a, bishop_2 * 2 + 1, PieceKind::Bishop, 0);
        }
        let ghost s1 = configuration@;
        let qpos = free_position(&configuration, queen);
        configuration[qpos] = PieceKind::Queen;
        proof {
            lemma_free_count_update(s1, qpos as int, PieceKind::Queen, 0);
        }
        let ghost s2 = configuration@;
        let (a, b): (u16, u16) = if knights < 4 {
            (knights, 4)
        } else if knights < 7 {
            (knights - 4, 3)
        } else if knights < 9 {
            (knights - 7, 2)
        } else {
            (0, 1)
        };
        let apos = free_position(&configuration, a);
        let bpos = free_position(&configuration, b);
        proof {
            lemma_nth_free_injective(s2, a as int, b as int, 0);
        }
        configuration[apos] = PieceKind::Knight;
        let ghost s3a = configuration@;
        configuration[bpos] = PieceKind::Knight;
        let ghost s3 = configuration@;
        proof {
            assert(s1 == s0.update(2 * (id % 4), PieceKind::Bishop).update(
                2 * ((id / 4) % 4) + 1,
                PieceKind::Bishop,
            ));
            assert(queen == (id / 16) % 6);
            assert(knights == id / 96);
        }

        let mut king_next = false;
        let mut i: usize = 0;
        while i < 8
            invariant
                0 <= i <= 8,
                configuration@.len() == 8,
                fill_rook_king(configuration@, i as int, king_next) == fill_rook_king(s3, 0, false),
            decreases 8 - i,
        {
            if configuration[i] == PieceKind::Pawn {
                let piece = if king_next {
                    PieceKind::King
                } else {
                    PieceKind::Rook
                };
                configuration[i] = piece;
                king_next = !king_next;
            }
            i = i + 1;
        }
        configuration
    }

    /// The uppercase FEN letter of this kind.
    pub fn uppercase(self) -> (c: char)
        ensures
            c == upper_letter(self),
    {
        match self {
            PieceKind::Pawn => 'P',
            PieceKind::Knight => 'N',
            PieceKind::Bishop => 'B',
            PieceKind::Rook => 'R',
            PieceKind::Queen => 'Q',
            PieceKind::King => 'K',
        }
    }

    /// The lowercase FEN letter of this kind.
    pub fn lowercase(self) -> (c: char)
        ensures
            c == lower_letter(self),
    {
        match self {
            PieceKind::Pawn => 'p',
            PieceKind::Knight => 'n',
            PieceKind::Bishop => 'b',
            PieceKind::Rook => 'r',
            PieceKind::Queen => 'q',
            PieceKind::King => 'k',
        }
    }

    /// Reads a FEN piece letter of either case.
    pub fn from_fen(c: char) -> (r: Result<PieceKind, InvalidFenPiece>)
        ensures
            r == (match kind_of_letter(c) {
                Some(p) => Ok::<PieceKind, InvalidFenPiece>(p),
                None => Err(InvalidFenPiece(c)),
            }),
    {
        if c == 'p' || c == 'P' {
            Ok(PieceKind::Pawn)
        } else if c == 'n' || c == 'N' {
            Ok(PieceKind::Knight)
        } else if c == 'b' || c == 'B' {
            Ok(PieceKind::Bishop)
        } else if c == 'r' || c == 'R' {
            Ok(PieceKind::Rook)
        } else if c == 'q' || c == 'Q' {
            Ok(PieceKind::Queen)
        } else if c == 'k' || c == 'K' {
            Ok(PieceKind::King)
        } else {
            Err(InvalidFenPiece(c))
        }
    }

    /// The English name of this kind, as shown to users.
    pub fn name(self) -> (s: &'static str)
        ensures
            s@ == (match self {
                PieceKind::Pawn => "pawn"@,
                PieceKind::Knight => "knight"@,
                PieceKind::Bishop => "bishop"@,
                PieceKind::Rook => "rook"@,
                PieceKind::Queen => "queen"@,
                PieceKind::King => "king"@,
            }),
    {
        match self {
            PieceKind::Pawn => "pawn",
            PieceKind::Knight => "knight",
            PieceKind::Bishop => "bishop",
            PieceKind::Rook => "rook",
            PieceKind::Queen => "queen",
            PieceKind::King => "king",
        }
    }

    /// Decodes the byte encoding (1 to 6).
    pub fn try_from_byte(value: u8) -> (r: Result<PieceKind, InvalidByte>)
        ensures
            match r {
                Ok(p) => 1 <= value <= 6 && kind_byte(p) == value,
                Err(_) => value == 0 || value >= 7,
            },
    {
        match value {
            1 => Ok(PieceKind::Pawn),
            2 => Ok(PieceKind::Knight),
            3 => Ok(PieceKind::Bishop),
            4 => Ok(PieceKind::Rook),
            5 => Ok(PieceKind::Queen),
            6 => Ok(PieceKind::King),
            _ => Err(InvalidByte),
        }
    }

    /// The byte encoding of this kind (1 to 6).
    pub fn to_byte(self) -> (b: u8)
        ensures
            b == kind_byte(self),
    {
        match self {
            PieceKind::Pawn => 1,
            PieceKind::Knight => 2,
            PieceKind::Bishop => 3,
            PieceKind::Rook => 4,
            PieceKind::Queen => 5,
            PieceKind::King => 6,
        }
    }
}

/// A piece kind together with the side it belongs to.
#[derive(Debug, Clone, Copy, PartialEq, Eq, Hash, Structural)]
pub struct ColoredPieceKind {
    pub color: Color,
    pub piece: PieceKind,
}

/// The FEN letter of a colored piece: uppercase for white, lowercase for black.
pub open spec fn fen_letter(p: ColoredPieceKind) -> char {
    match p.color {
        Color::White => upper_letter(p.piece),
        Color::Black => lower_letter(p.piece),
    }
}

/// Whether a character is an ASCII uppercase letter.
pub open spec fn is_upper_ascii(c: char) -> bool {
    'A' <= c <= 'Z'
}

impl ColoredPieceKind {
    pub fn new(color: Color, piece: PieceKind) -> (r: ColoredPieceKind)
        ensures
            r.color == color,
            r.piece == piece,
    {
        ColoredPieceKind { color, piece }
    }

    pub fn color(self) -> (c: Color)
        ensures
            c == self.color,
    {
        self.color
    }

    pub fn piece(self) -> (p: PieceKind)
        ensures
            p == self.piece,
    {
        self.piece
    }

    /// The FEN letter of this piece.
    pub fn fen(self) -> (c: char)
        ensures
            c == fen_letter(self),
    {
        match self.color {
            Color::White => self.piece.uppercase(),
            Color::Black => self.piece.lowercase(),
        }
    }

    /// Reads a FEN piece letter: uppercase is white, anything else black.
    pub fn from_fen(c: char) -> (r: Result<ColoredPieceKind, InvalidFenPiece>)
        ensures
            r == (match kind_of_letter(c) {
                Some(p) => Ok::<ColoredPieceKind, InvalidFenPiece>(
                    ColoredPieceKind {
                        color: if is_upper_ascii(c) { Color::White } else { Color::Black },
                        piece: p,
                    },
                ),
                None => Err(InvalidFenPiece(c)),
            }),
    {
        let piece = match PieceKind::from_fen(c) {
            Ok(p) => p,
            Err(e) => return Err(e),
        };
        let color = if 'A' <= c && c <= 'Z' {
            Color::White
        } else {
            Color::Black
        };
        Ok(ColoredPieceKind::new(color, piece))
    }

    /// The chess figurine character of this piece.
    pub fn figurine(self) -> (c: char)
        ensures
            c == figurine_of(self),
    {
        match (self.color, self.piece) {
            (Color::White, PieceKind::Pawn) => '\u{2659}',
            (Color::White, PieceKind::Knight) => '\u{2658}',
            (Color::White, PieceKind::Bishop) => '\u{2657}',
            (Color::White, PieceKind::Rook) => '\u{2656}',
            (Color::White, PieceKind::Queen) => '\u{2655}',
            (Color::White, PieceKind::King) => '\u{2654}',
            (Color::Black, PieceKind::Pawn) => '\u{265F}',
            (Color::Black, PieceKind::Knight) => '\u{265E}',
            (Color::Black, PieceKind::Bishop) => '\u{265D}',
            (Color::Black, PieceKind::Rook) => '\u{265C}',
            (Color::Black, PieceKind::Queen) => '\u{265B}',
            (Color::Black, PieceKind::King) => '\u{265A}',
        }
    }
}

/// The Unicode chess figurine of a colored piece.
pub open spec fn figurine_of(p: ColoredPieceKind) -> char {
    match (p.color, p.piece) {
        (Color::White, PieceKind::Pawn) => '\u{2659}',
        (Color::White, PieceKind::Knight) => '\u{2658}',
        (Color::White, PieceKind::Bishop) => '\u{2657}',
        (Color::White, PieceKind::Rook) => '\u{2656}',
        (Color::White, PieceKind::Queen) => '\u{2655}',
        (Color::White, PieceKind::King) => '\u{2654}',
        (Color::Black, PieceKind::Pawn) => '\u{265F}',
        (Color::Black, PieceKind::Knight) => '\u{265E}',
        (Color::Black, PieceKind::Bishop) => '\u{265D}',
        (Color::Black, PieceKind::Rook) => '\u{265C}',
        (Color::Black, PieceKind::Queen) => '\u{265B}',
        (Color::Black, PieceKind::King) => '\u{265A}',
    }
}

/// A piece standing on a square.
#[derive(Debug, Clone, Copy, PartialEq, Eq, Hash, Structural)]
pub struct Piece {
    pub piece: ColoredPieceKind,
    pub position: Coord,
}

impl Piece {
    pub fn color(self) -> (c: Color)
        ensures
            c == self.piece.color,
    {
        self.piece.color
    }

    pub fn piece(self) -> (p: PieceKind)
        ensures
            p == self.piece.piece,
    {
        self.piece.piece
    }
}

/// Reading the FEN letter of a piece gives back the same piece.
pub proof fn lemma_fen_round_trip(p: ColoredPieceKind)
    ensures
        kind_of_letter(fen_letter(p)) == Some(p.piece),
        is_upper_ascii(fen_letter(p)) == (p.color == Color::White),
{
}

/// Each piece kind has exactly one uppercase and one lowercase letter, and
/// both read back as that kind.
pub proof fn lemma_letter_round_trip(p: PieceKind)
    ensures
        kind_of_letter(upper_letter(p)) == Some(p),
        kind_of_letter(lower_letter(p)) == Some(p),
{
}

} // verus!
