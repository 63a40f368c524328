//! Reading a board back as a grid, checking a board, and building one from a grid.
use vstd::prelude::*;
use crate::board::{lemma_legal_move_keeps_wf, pawn_attacker_exists, Board, Move};
use crate::color::Color;
use crate::coord::{abs_int, en_passant_color_of, home_rank_of, pawn_dir, pawn_home_rank_of, square, Coord};
use crate::hashable::{
    cnt, configuration_cell, fits, fits_at, overflow_kind, place_pieces, represents, row_count, rows_count, ExceededPieces,
    HashableBoard,
};
use crate::piece::{
    chess960_rank, full_back_rank, kind_count, lemma_chess960_rank, lemma_kind_absent, lemma_kind_found, lemma_standard_rank,
    standard_rank, ColoredPieceKind, Piece, PieceKind,
};
use crate::rules::{
    along, apply_slots, attacked_by, attacker, attacks, capture_of, king_apart, diagonal, straight, castle_king_file, castle_legal, castle_move, clear_path, distance, on_rank_path, index_at, legal, plain_legal, plain_move,
    pawn_front, pseudo_legal, reaches, line_step, is_attacked_by, is_occupied, king_slot, lemma_index_at, occ,
    occupied, pawn_attacker, pawn_attacks, piece_at, piece_attacks, positions_wf, slot_color, slots_wf, Slots,
};

verus! {

/// Why a grid does not describe a position that can be played from.
#[derive(Debug, Clone, Copy, PartialEq, Eq, Hash, Structural)]
pub enum InvalidBoard {
    ExceededPieces(ExceededPieces),
    NoKing,
    NonPlayerInCheck,
    MoreThanTwoCheckers,
    RookNotFound,
    InvalidEnPassantRank,
    EnPassantPawnNotFound,
    PawnOnHomeRank,
}

/// Number of slots below `n` holding a piece of `color` that attacks `t`.
pub open spec fn attacker_count(s: Slots, t: Coord, color: Color, n: int) -> int
    decreases n,
{
    if n <= 0 {
        0
    } else {
        attacker_count(s, t, color, n - 1) + if attacker(s, t, color, n - 1) {
            1int
        } else {
            0int
        }
    }
}

/// Every castling right of `color` is backed: its king stands on its home rank
/// and a rook of its side stands on the home rank at the right's file.
pub open spec fn rights_backed(b: Board, c: Color) -> bool {
    forall|x: int|
        0 <= x < 8 && #[trigger] b.castling_right.has(c, x) ==> b.pieces@[king_slot(c)]->Some_0.position.y
            == home_rank_of(c) && piece_at(b.pieces@, square(x, home_rank_of(c))) == Some(
            ColoredPieceKind { color: c, piece: PieceKind::Rook },
        )
}

/// The pawn that left en passant target `t` stands in front of it.
pub open spec fn en_passant_pawn_present(s: Slots, t: Coord) -> bool {
    let c = en_passant_color_of(t.y as int)->Some_0;
    piece_at(s, square(t.x as int, t.y + pawn_dir(c))) == Some(
        ColoredPieceKind { color: c, piece: PieceKind::Pawn },
    )
}

/// Some pawn stands on the first or the last rank.
pub open spec fn pawn_on_home_rank(s: Slots) -> bool {
    exists|i: int|
        0 <= i < 32 && #[trigger] s[i] is Some && s[i]->Some_0.piece.piece == PieceKind::Pawn && (
        s[i]->Some_0.position.y == 0 || s[i]->Some_0.position.y == 7)
}

/// The first rule of a sound position that the board breaks, checked in this
/// order: the side not to move is in check; three or more pieces give check;
/// a castling right has no king and rook behind it; the en passant target is
/// not on the third or sixth rank; no pawn stands in front of it; a pawn
/// stands on the first or last rank.
pub open spec fn validation(b: Board) -> Result<(), InvalidBoard> {
    let s = b.pieces@;
    let c = b.current_player;
    if attacked_by(s, s[king_slot(c.other())]->Some_0.position, c) {
        Err(InvalidBoard::NonPlayerInCheck)
    } else if attacker_count(s, s[king_slot(c)]->Some_0.position, c.other(), 32) > 2 {
        Err(InvalidBoard::MoreThanTwoCheckers)
    } else if !(rights_backed(b, Color::White) && rights_backed(b, Color::Black)) {
        Err(InvalidBoard::RookNotFound)
    } else if b.en_passant_target is Some && en_passant_color_of(
        b.en_passant_target->Some_0.y as int,
    ) is None {
        Err(InvalidBoard::InvalidEnPassantRank)
    } else if b.en_passant_target is Some && !en_passant_pawn_present(
        s,
        b.en_passant_target->Some_0,
    ) {
        Err(InvalidBoard::EnPassantPawnNotFound)
    } else if pawn_on_home_rank(s) {
        Err(InvalidBoard::PawnOnHomeRank)
    } else {
        Ok(())
    }
}

/// Number of pieces of `color` that attack `t`.
fn count_attackers(s: &[Option<Piece>; 32], t: Coord, color: Color) -> (r: u8)
    requires
        positions_wf(s@),
        t.wf(),
    ensures
        r == attacker_count(s@, t, color, 32),
{
    let mut n: u8 = 0;
    let mut i: usize = 0;
    while i < 32
        invariant
            0 <= i <= 32,
            positions_wf(s@),
            t.wf(),
            n == attacker_count(s@, t, color, i as int),
            n <= i,
        decreases 32 - i,
    {
        match s[i] {
            Some(p) => {
                if p.piece.color == color && piece_attacks(s, p, t) {
                    n = n + 1;
                }
            },
            None => {},
        }
        i = i + 1;
    }
    n
}

impl Board {
    /// The piece on a square.
    pub fn index(&self, position: Coord) -> (r: Option<ColoredPieceKind>)
        requires
            self.wf(),
        ensures
            r == piece_at(self.pieces@, position),
    {
        match self.piece_on(position) {
            Some((_, p)) => Some(p.piece),
            None => None,
        }
    }

    /// Whether every castling right of `color` has its king and rook in place.
    fn rights_backed_exec(&self, color: Color) -> (r: bool)
        requires
            self.wf(),
        ensures
            r == rights_backed(*self, color),
    {
        let home = crate::coord::home_rank(color);
        let king = match color {
            Color::White => self.pieces[0].unwrap(),
            Color::Black => self.pieces[16].unwrap(),
        };
        let mut x: u8 = 0;
        while x < 8
            invariant
                0 <= x <= 8,
                self.wf(),
                home == home_rank_of(color),
                king == self.pieces@[king_slot(color)]->Some_0,
                forall|f: int|
                    0 <= f < x && #[trigger] self.castling_right.has(color, f) ==> king.position.y
                        == home && piece_at(self.pieces@, square(f, home as int)) == Some(
                        ColoredPieceKind { color, piece: PieceKind::Rook },
                    ),
            decreases 8 - x,
        {
            if self.castling_right.get(color, x) {
                if king.position.y != home {
                    return false;
                }
                let sq = Coord::new(x, home);
                match self.piece_on(sq) {
                    Some((_, p)) => {
                        if p.piece.color != color || p.piece.piece != PieceKind::Rook {
                            return false;
                        }
                    },
                    None => {
                        return false;
                    },
                }
            }
            x = x + 1;
        }
        true
    }

    /// Whether some pawn stands on the first or the last rank.
    fn pawn_on_home_rank_exec(&self) -> (r: bool)
        requires
            self.wf(),
        ensures
            r == pawn_on_home_rank(self.pieces@),
    {
        let mut i: usize = 0;
        while i < 32
            invariant
                0 <= i <= 32,
                self.wf(),
                forall|j: int|
                    0 <= j < i ==> !(#[trigger] self.pieces@[j] is Some && self.pieces@[j]->Some_0.piece.piece
                        == PieceKind::Pawn && (self.pieces@[j]->Some_0.position.y == 0
                        || self.pieces@[j]->Some_0.position.y == 7)),
            decreases 32 - i,
        {
            match self.pieces[i] {
                Some(p) => {
                    if p.piece.piece == PieceKind::Pawn && (p.position.y == 0 || p.position.y == 7) {
                        return true;
                    }
                },
                None => {},
            }
            i = i + 1;
        }
        false
    }

    /// Checks the rules of a sound position, reporting the first one broken.
    pub fn validate(&self) -> (r: Result<(), InvalidBoard>)
        requires
            self.wf(),
        ensures
            r == validation(*self),
    {
        let c = self.current_player;
        let (own, other) = match c {
            Color::White => (self.pieces[0].unwrap(), self.pieces[16].unwrap()),
            Color::Black => (self.pieces[16].unwrap(), self.pieces[0].unwrap()),
        };
        if is_attacked_by(&self.pieces, other.position, c) {
            return Err(InvalidBoard::NonPlayerInCheck);
        }
        if count_attackers(&self.pieces, own.position, c.opposite()) > 2 {
            return Err(InvalidBoard::MoreThanTwoCheckers);
        }
        if !(self.rights_backed_exec(Color::White) && self.rights_backed_exec(Color::Black)) {
            return Err(InvalidBoard::RookNotFound);
        }
        match self.en_passant_target {
            Some(t) => match t.pawn_from_en_passant_target() {
                Some((color, pawn)) => {
                    match self.piece_on(pawn) {
                        Some((_, p)) => {
                            if p.piece.color != color || p.piece.piece != PieceKind::Pawn {
                                return Err(InvalidBoard::EnPassantPawnNotFound);
                            }
                        },
                        None => {
                            return Err(InvalidBoard::EnPassantPawnNotFound);
                        },
                    }
                },
                None => {
                    return Err(InvalidBoard::InvalidEnPassantRank);
                },
            },
            None => {},
        }
        if self.pawn_on_home_rank_exec() {
            return Err(InvalidBoard::PawnOnHomeRank);
        }
        Ok(())
    }
}


/// The en passant target of a grid lies on the third or sixth rank.
pub open spec fn en_passant_rank_ok(h: HashableBoard) -> bool {
    h.en_passant_target matches Some(t) ==> en_passant_color_of(t.y as int) is Some
}

/// The grid shows a king of `c`.
pub open spec fn has_king(h: HashableBoard, c: Color) -> bool {
    exists|q: Coord|
        q.wf() && #[trigger] h.cell(q.x as int, q.y as int) == Some(
            ColoredPieceKind { color: c, piece: PieceKind::King },
        )
}

/// A pawn of `color` in the grid attacks `t`.
pub open spec fn grid_pawn_attacks(h: HashableBoard, t: Coord, color: Color) -> bool {
    exists|q: Coord|
        q.wf() && #[trigger] h.cell(q.x as int, q.y as int) == Some(
            ColoredPieceKind { color, piece: PieceKind::Pawn },
        ) && pawn_attacks(q, t, color)
}

/// The en passant target a board keeps from a grid: only an empty target
/// square that a pawn of the side to capture attacks.
pub open spec fn kept_en_passant(h: HashableBoard) -> Option<Coord> {
    match h.en_passant_target {
        Some(t) => if h.cell(t.x as int, t.y as int) is None && grid_pawn_attacks(
            h,
            t,
            en_passant_color_of(t.y as int)->Some_0.other(),
        ) {
            Some(t)
        } else {
            None
        },
        None => None,
    }
}

/// The board shows the grid: the same piece on every square, the same side to
/// move and castling rights, and the en passant target the grid keeps.
pub open spec fn grid_matches(b: Board, h: HashableBoard) -> bool {
    &&& forall|q: Coord| q.wf() ==> #[trigger] piece_at(b.pieces@, q) == h.cell(q.x as int, q.y as int)
    &&& b.current_player == h.current_player
    &&& b.castling_right == h.castling_right
    &&& b.en_passant_target == kept_en_passant(h)
}

/// Slots that hold the pieces of a grid show that grid, square by square.
proof fn lemma_represents_grid(h: HashableBoard, s: Slots)
    requires
        represents(h, s),
        s[0] is Some,
        s[16] is Some,
    ensures
        slots_wf(s),
        forall|q: Coord| q.wf() ==> #[trigger] piece_at(s, q) == h.cell(q.x as int, q.y as int),
        forall|t: Coord, c: Color| #![trigger grid_pawn_attacks(h, t, c)] grid_pawn_attacks(h, t, c) <==> exists|j: int| #[trigger] pawn_attacker(s, t, c, j),
{
    assert forall|q: Coord| q.wf() implies #[trigger] piece_at(s, q) == h.cell(q.x as int, q.y as int) by {
        if occupied(s, q) {
            let i = choose|i: int| #[trigger] occ(s, q, i);
            lemma_index_at(s, q, i);
        }
    }
    assert forall|t: Coord, c: Color| #![trigger grid_pawn_attacks(h, t, c)] grid_pawn_attacks(h, t, c) <==> exists|j: int| #[trigger] pawn_attacker(s, t, c, j) by {
        if grid_pawn_attacks(h, t, c) {
            let q = choose|q: Coord|
                q.wf() && #[trigger] h.cell(q.x as int, q.y as int) == Some(
                    ColoredPieceKind { color: c, piece: PieceKind::Pawn },
                ) && pawn_attacks(q, t, c);
            let i = choose|i: int| #[trigger] occ(s, q, i);
            assert(pawn_attacker(s, t, c, i));
        }
        if exists|j: int| #[trigger] pawn_attacker(s, t, c, j) {
            let j = choose|j: int| #[trigger] pawn_attacker(s, t, c, j);
            let q = s[j]->Some_0.position;
            assert(h.cell(q.x as int, q.y as int) == Some(ColoredPieceKind { color: c, piece: PieceKind::Pawn }));
        }
    }
}

/// The king slots of slots that hold a grid are filled exactly when the grid
/// shows both kings.
proof fn lemma_kings_placed(h: HashableBoard, s: Slots)
    requires
        represents(h, s),
    ensures
        (s[0] is Some && s[16] is Some) <==> (has_king(h, Color::White) && has_king(h, Color::Black)),
{
    if s[0] is Some {
        let q = s[0]->Some_0.position;
        assert(h.cell(q.x as int, q.y as int) == Some(ColoredPieceKind { color: Color::White, piece: PieceKind::King }));
    }
    if s[16] is Some {
        let q = s[16]->Some_0.position;
        assert(h.cell(q.x as int, q.y as int) == Some(ColoredPieceKind { color: Color::Black, piece: PieceKind::King }));
    }
    if has_king(h, Color::White) {
        let q = choose|q: Coord|
            q.wf() && #[trigger] h.cell(q.x as int, q.y as int) == Some(
                ColoredPieceKind { color: Color::White, piece: PieceKind::King },
            );
        let i = choose|i: int| #[trigger] occ(s, q, i);
        assert(s[i] is Some);
    }
    if has_king(h, Color::Black) {
        let q = choose|q: Coord|
            q.wf() && #[trigger] h.cell(q.x as int, q.y as int) == Some(
                ColoredPieceKind { color: Color::Black, piece: PieceKind::King },
            );
        let i = choose|i: int| #[trigger] occ(s, q, i);
        assert(s[i] is Some);
    }
}

/// What building a board from a grid gives: the error of the first rule the
/// grid breaks (too many pieces, at the first piece that does not fit; an en
/// passant target off the third and sixth ranks; a missing king), or else the
/// board that shows the grid, kept when it is sound and otherwise refused with
/// the first rule of `validation` it breaks.
pub open spec fn built_from_grid(h: HashableBoard, r: Result<Board, InvalidBoard>) -> bool {
    &&& (r matches Err(InvalidBoard::ExceededPieces(_))) <==> !fits(h)
    &&& r matches Err(InvalidBoard::ExceededPieces(e)) ==> exists|y: int, x: int|
        #![trigger overflow_kind(h, y, x)]
        0 <= y < 8 && 0 <= x < 8 && fits_at(h, y, x) && !fits_at(h, y, x + 1) && e
            == overflow_kind(h, y, x)
    &&& fits(h) ==> (r == Err::<Board, InvalidBoard>(InvalidBoard::InvalidEnPassantRank)
        <==> !en_passant_rank_ok(h))
    &&& fits(h) && en_passant_rank_ok(h) ==> (r == Err::<Board, InvalidBoard>(InvalidBoard::NoKing)
        <==> !(has_king(h, Color::White) && has_king(h, Color::Black)))
    &&& fits(h) && en_passant_rank_ok(h) && has_king(h, Color::White) && has_king(h, Color::Black)
        ==> exists|b: Board|
        b.wf() && grid_matches(b, h) && match r {
            Ok(built) => built == b && validation(b) == Ok::<(), InvalidBoard>(()),
            Err(e) => validation(b) == Err::<(), InvalidBoard>(e),
        }
}

impl Board {
    /// Builds a board from a grid: places its pieces in slots, keeps the en
    /// passant target only when a pawn can capture there, and checks the
    /// result.
    pub fn try_from_hashable(h: HashableBoard) -> (r: Result<Board, InvalidBoard>)
        requires
            h.wf(),
        ensures
            built_from_grid(h, r),
    {
        let pieces = match place_pieces(&h) {
            Ok(s) => s,
            Err(e) => {
                return Err(InvalidBoard::ExceededPieces(e));
            },
        };
        proof {
            lemma_kings_placed(h, pieces@);
        }
        let mut en_passant_target = h.en_passant_target;
        match h.en_passant_target {
            Some(t) => match Coord::en_passant_target_color(t.y) {
                Some(color) => {
                    if is_occupied(&pieces, t) || !pawn_attacker_exists(&pieces, t, color.opposite()) {
                        en_passant_target = None;
                    }
                },
                None => {
                    return Err(InvalidBoard::InvalidEnPassantRank);
                },
            },
            None => {},
        }
        if pieces[0].is_none() || pieces[16].is_none() {
            return Err(InvalidBoard::NoKing);
        }
        proof {
            lemma_represents_grid(h, pieces@);
        }
        let board = Board {
            pieces,
            current_player: h.current_player,
            castling_right: h.castling_right,
            en_passant_target,
        };
        proof {
            if let Some(t) = h.en_passant_target {
                assert(occupied(pieces@, t) == (h.cell(t.x as int, t.y as int) is Some)) by {
                    assert(piece_at(pieces@, t) == h.cell(t.x as int, t.y as int));
                }
            }
            assert(board.wf());
            assert(grid_matches(board, h));
        }
        match board.validate() {
            Ok(()) => Ok(board),
            Err(e) => Err(e),
        }
    }
}

impl Board {
    /// The board as a grid, with the same side to move, castling rights and
    /// en passant target.
    pub fn as_hashable(&self) -> (r: HashableBoard)
        requires
            self.wf(),
        ensures
            forall|q: Coord| q.wf() ==> #[trigger] r.cell(q.x as int, q.y as int) == piece_at(self.pieces@, q),
            r.current_player == self.current_player,
            r.castling_right == self.castling_right,
            r.en_passant_target == self.en_passant_target,
            r.wf(),
    {
        let mut board: [[Option<ColoredPieceKind>; 8]; 8] = [[None; 8]; 8];
        let mut i: usize = 0;
        while i < 32
            invariant
                0 <= i <= 32,
                self.wf(),
                forall|j: int|
                    0 <= j < i && #[trigger] self.pieces@[j] is Some ==> board@[self.pieces@[j]->Some_0.position.y as int]@[self.pieces@[j]->Some_0.position.x as int]
                        == Some(self.pieces@[j]->Some_0.piece),
                forall|x: int, y: int|
                    0 <= x < 8 && 0 <= y < 8 && #[trigger] board@[y]@[x] is Some ==> exists|j: int|
                        0 <= j < i && #[trigger] occ(self.pieces@, square(x, y), j),
            decreases 32 - i,
        {
            match self.pieces[i] {
                Some(p) => {
                    let y = p.position.y as usize;
                    let x = p.position.x as usize;
                    let mut row = board[y];
                    row[x] = Some(p.piece);
                    board[y] = row;
                    proof {
                        assert(occ(self.pieces@, square(x as int, y as int), i as int));
                        assert forall|j: int|
                            0 <= j < i + 1 && #[trigger] self.pieces@[j] is Some implies board@[self.pieces@[j]->Some_0.position.y as int]@[self.pieces@[j]->Some_0.position.x as int]
                                == Some(self.pieces@[j]->Some_0.piece) by {
                            if j != i {
                                assert(self.pieces@[i as int] is Some);
                            }
                        }
                    }
                },
                None => {},
            }
            i = i + 1;
        }
        let r = HashableBoard {
            board,
            current_player: self.current_player,
            castling_right: self.castling_right,
            en_passant_target: self.en_passant_target,
        };
        proof {
            assert forall|q: Coord| q.wf() implies #[trigger] r.cell(q.x as int, q.y as int) == piece_at(self.pieces@, q) by {
                if occupied(self.pieces@, q) {
                    let j = choose|j: int| #[trigger] occ(self.pieces@, q, j);
                    lemma_index_at(self.pieces@, q, j);
                }
                if r.cell(q.x as int, q.y as int) is Some {
                    assert(square(q.x as int, q.y as int) == q);
                    let j = choose|j: int| 0 <= j < 32 && #[trigger] occ(self.pieces@, square(q.x as int, q.y as int), j);
                    assert(occ(self.pieces@, q, j));
                }
            }
        }
        r
    }
}

/// The grid shows the starting position whose back ranks follow `cfg`: white
/// to move, castling allowed with every rook, no en passant target.
pub open spec fn starting_grid(h: HashableBoard, cfg: Seq<PieceKind>) -> bool {
    &&& forall|x: int, y: int|
        0 <= x < 8 && 0 <= y < 8 ==> #[trigger] h.cell(x, y) == configuration_cell(cfg, x, y)
    &&& h.current_player == Color::White
    &&& forall|c: Color, x: int| 0 <= x < 8 ==> #[trigger] h.castling_right.has(c, x) == (cfg[x] == PieceKind::Rook)
    &&& h.en_passant_target is None
}

/// The board shows the starting position whose back ranks follow `cfg`.
pub open spec fn starting_board(b: Board, cfg: Seq<PieceKind>) -> bool {
    &&& forall|q: Coord| q.wf() ==> #[trigger] piece_at(b.pieces@, q) == configuration_cell(cfg, q.x as int, q.y as int)
    &&& b.current_player == Color::White
    &&& forall|c: Color, x: int| 0 <= x < 8 ==> #[trigger] b.castling_right.has(c, x) == (cfg[x] == PieceKind::Rook)
    &&& b.en_passant_target is None
}

proof fn lemma_row_count_rank(
    row: Seq<Option<ColoredPieceKind>>,
    cfg: Seq<PieceKind>,
    col: Color,
    pk: ColoredPieceKind,
    n: int,
)
    requires
        0 <= n <= 8,
        forall|x: int| 0 <= x < 8 ==> #[trigger] row[x] == Some(ColoredPieceKind { color: col, piece: cfg[x] }),
    ensures
        row_count(row, pk, n) == if pk.color == col {
            kind_count(cfg, pk.piece, n)
        } else {
            0
        },
    decreases n,
{
    if n > 0 {
        lemma_row_count_rank(row, cfg, col, pk, n - 1);
    }
}

proof fn lemma_row_count_empty(row: Seq<Option<ColoredPieceKind>>, pk: ColoredPieceKind, n: int)
    requires
        0 <= n <= 8,
        forall|x: int| 0 <= x < 8 ==> #[trigger] row[x] is None,
    ensures
        row_count(row, pk, n) == 0,
    decreases n,
{
    if n > 0 {
        lemma_row_count_empty(row, pk, n - 1);
    }
}

/// Number of cells of row `y` of a starting grid that hold `pk`.
proof fn lemma_start_row(h: HashableBoard, cfg: Seq<PieceKind>, y: int, pk: ColoredPieceKind)
    requires
        starting_grid(h, cfg),
        0 <= y < 8,
    ensures
        row_count(h.board@[y]@, pk, 8) == if y == 0 || y == 7 {
            if pk.color == (if y == 0 { Color::Black } else { Color::White }) {
                kind_count(cfg, pk.piece, 8)
            } else {
                0
            }
        } else if y == 1 || y == 6 {
            if pk == (ColoredPieceKind {
                color: if y == 1 { Color::Black } else { Color::White },
                piece: PieceKind::Pawn,
            }) {
                8
            } else {
                0
            }
        } else {
            0
        },
{
    let row = h.board@[y]@;
    if y == 0 || y == 7 {
        let col = if y == 0 {
            Color::Black
        } else {
            Color::White
        };
        assert forall|x: int| 0 <= x < 8 implies #[trigger] row[x] == Some(ColoredPieceKind { color: col, piece: cfg[x] }) by {
            assert(h.cell(x, y) == configuration_cell(cfg, x, y));
        }
        lemma_row_count_rank(row, cfg, col, pk, 8);
    } else if y == 1 || y == 6 {
        let col = if y == 1 {
            Color::Black
        } else {
            Color::White
        };
        let pawns = Seq::new(8, |i: int| PieceKind::Pawn);
        assert forall|x: int| 0 <= x < 8 implies #[trigger] row[x] == Some(ColoredPieceKind { color: col, piece: pawns[x] }) by {
            assert(h.cell(x, y) == configuration_cell(cfg, x, y));
        }
        lemma_row_count_rank(row, pawns, col, pk, 8);
        assert(kind_count(pawns, pk.piece, 8) == if pk.piece == PieceKind::Pawn { 8int } else { 0int }) by {
            reveal_with_fuel(kind_count, 9);
        }
    } else {
        assert forall|x: int| 0 <= x < 8 implies #[trigger] row[x] is None by {
            assert(h.cell(x, y) == configuration_cell(cfg, x, y));
        }
        lemma_row_count_empty(row, pk, 8);
    }
}

/// On a starting grid a side has the pieces of its back rank and eight pawns.
proof fn lemma_start_counts(h: HashableBoard, cfg: Seq<PieceKind>, c: Color, k: PieceKind)
    requires
        starting_grid(h, cfg),
    ensures
        cnt(h, c, k, 8, 0) == kind_count(cfg, k, 8) + if k == PieceKind::Pawn {
            8int
        } else {
            0int
        },
{
    let pk = ColoredPieceKind { color: c, piece: k };
    reveal_with_fuel(rows_count, 9);
    lemma_start_row(h, cfg, 0, pk);
    lemma_start_row(h, cfg, 1, pk);
    lemma_start_row(h, cfg, 2, pk);
    lemma_start_row(h, cfg, 3, pk);
    lemma_start_row(h, cfg, 4, pk);
    lemma_start_row(h, cfg, 5, pk);
    lemma_start_row(h, cfg, 6, pk);
    lemma_start_row(h, cfg, 7, pk);
}

/// What stands on a square of a board that shows a starting grid.
proof fn lemma_start_square(b: Board, h: HashableBoard, cfg: Seq<PieceKind>, i: int)
    requires
        b.wf(),
        grid_matches(b, h),
        starting_grid(h, cfg),
        full_back_rank(cfg),
        0 <= i < 32,
        b.pieces@[i] is Some,
    ensures
        ({
            let p = b.pieces@[i]->Some_0;
            let c = p.piece.color;
            &&& p.position.y == home_rank_of(c) || p.position.y == pawn_home_rank_of(c)
            &&& p.position.y == home_rank_of(c) ==> p.piece.piece == cfg[p.position.x as int]
                && p.piece.piece != PieceKind::Pawn
            &&& p.position.y == pawn_home_rank_of(c) ==> p.piece.piece == PieceKind::Pawn
        }),
{
    let s = b.pieces@;
    let p = s[i]->Some_0;
    let q = p.position;
    assert(occ(s, q, i));
    lemma_index_at(s, q, i);
    assert(piece_at(s, q) == h.cell(q.x as int, q.y as int));
    assert(h.cell(q.x as int, q.y as int) == configuration_cell(cfg, q.x as int, q.y as int));
    if q.y == 0 || q.y == 7 {
        lemma_kind_absent(cfg, PieceKind::Pawn, 8, q.x as int);
    }
}

/// On a starting position no piece attacks the home rank of the other side.
proof fn lemma_start_no_attack(b: Board, h: HashableBoard, cfg: Seq<PieceKind>, c: Color, t: Coord, i: int)
    requires
        b.wf(),
        grid_matches(b, h),
        starting_grid(h, cfg),
        full_back_rank(cfg),
        t.wf(),
        t.y == home_rank_of(c.other()),
    ensures
        !attacker(b.pieces@, t, c, i),
{
    let s = b.pieces@;
    if attacker(s, t, c, i) {
        lemma_start_square(b, h, cfg, i);
        let p = s[i]->Some_0;
        let from = p.position;
        match p.piece.piece {
            PieceKind::Pawn => {},
            PieceKind::Knight => {},
            PieceKind::King => {},
            _ => {
                assert(distance(from, t) == 7);
                let q = line_step(from, t, 1);
                assert(q.wf() && q.y == pawn_home_rank_of(c));
                assert(piece_at(s, q) == h.cell(q.x as int, q.y as int));
                assert(h.cell(q.x as int, q.y as int) == configuration_cell(cfg, q.x as int, q.y as int));
                assert(occupied(s, q));
            },
        }
    }
}

proof fn lemma_no_attacker_count(s: Slots, t: Coord, color: Color, n: int)
    requires
        forall|i: int| !#[trigger] attacker(s, t, color, i),
    ensures
        attacker_count(s, t, color, n) == 0,
    decreases n,
{
    if n > 0 {
        lemma_no_attacker_count(s, t, color, n - 1);
    }
}

/// Where the king of `c` stands on a board that shows a starting grid.
proof fn lemma_start_king(b: Board, h: HashableBoard, cfg: Seq<PieceKind>, c: Color)
    requires
        b.wf(),
        grid_matches(b, h),
        starting_grid(h, cfg),
        full_back_rank(cfg),
    ensures
        b.pieces@[king_slot(c)]->Some_0.position.y == home_rank_of(c),
        b.pieces@[king_slot(c)]->Some_0.position.wf(),
{
    lemma_start_square(b, h, cfg, king_slot(c));
}

/// A starting grid whose back rank holds the full set of pieces fits the
/// slots, shows both kings, and every board that shows it is sound.
proof fn lemma_starting_grid(h: HashableBoard, cfg: Seq<PieceKind>)
    requires
        starting_grid(h, cfg),
        full_back_rank(cfg),
    ensures
        fits(h),
        en_passant_rank_ok(h),
        has_king(h, Color::White),
        has_king(h, Color::Black),
        forall|b: Board| b.wf() && #[trigger] grid_matches(b, h) ==> validation(b) == Ok::<(), InvalidBoard>(()),
{
    assert forall|c: Color, k: PieceKind| #[trigger] cnt(h, c, k, 8, 0) == kind_count(cfg, k, 8) + if k
        == PieceKind::Pawn {
        8int
    } else {
        0int
    } by {
        lemma_start_counts(h, cfg, c, k);
    }
    assert(fits_at(h, 8, 0)) by {
        assert(cnt(h, Color::White, PieceKind::King, 8, 0) == 1);
        assert(cnt(h, Color::White, PieceKind::Queen, 8, 0) == 1);
        assert(cnt(h, Color::White, PieceKind::Rook, 8, 0) == 2);
        assert(cnt(h, Color::White, PieceKind::Bishop, 8, 0) == 2);
        assert(cnt(h, Color::White, PieceKind::Knight, 8, 0) == 2);
        assert(cnt(h, Color::White, PieceKind::Pawn, 8, 0) == 8);
        assert(cnt(h, Color::Black, PieceKind::King, 8, 0) == 1);
        assert(cnt(h, Color::Black, PieceKind::Queen, 8, 0) == 1);
        assert(cnt(h, Color::Black, PieceKind::Rook, 8, 0) == 2);
        assert(cnt(h, Color::Black, PieceKind::Bishop, 8, 0) == 2);
        assert(cnt(h, Color::Black, PieceKind::Knight, 8, 0) == 2);
        assert(cnt(h, Color::Black, PieceKind::Pawn, 8, 0) == 8);
    }
    lemma_kind_found(cfg, PieceKind::King, 8);
    let kx = choose|i: int| 0 <= i < 8 && cfg[i] == PieceKind::King;
    let wk = square(kx, 7);
    let bk = square(kx, 0);
    assert(h.cell(wk.x as int, wk.y as int) == configuration_cell(cfg, kx, 7));
    assert(h.cell(bk.x as int, bk.y as int) == configuration_cell(cfg, kx, 0));
    assert forall|b: Board| b.wf() && #[trigger] grid_matches(b, h) implies validation(b) == Ok::<(), InvalidBoard>(()) by {
        let s = b.pieces@;
        let c = b.current_player;
        lemma_start_king(b, h, cfg, Color::White);
        lemma_start_king(b, h, cfg, Color::Black);
        assert forall|i: int| !#[trigger] attacker(s, s[king_slot(c.other())]->Some_0.position, c, i) by {
            lemma_start_no_attack(b, h, cfg, c, s[king_slot(c.other())]->Some_0.position, i);
        }
        assert forall|i: int| !#[trigger] attacker(s, s[king_slot(c)]->Some_0.position, c.other(), i) by {
            lemma_start_no_attack(b, h, cfg, c.other(), s[king_slot(c)]->Some_0.position, i);
        }
        lemma_no_attacker_count(s, s[king_slot(c)]->Some_0.position, c.other(), 32);
        assert forall|col: Color| rights_backed(b, col) by {
            assert forall|x: int| 0 <= x < 8 && #[trigger] b.castling_right.has(col, x) implies s[king_slot(col)]->Some_0.position.y
                == home_rank_of(col) && piece_at(s, square(x, home_rank_of(col))) == Some(
                ColoredPieceKind { color: col, piece: PieceKind::Rook },
            ) by {
                lemma_start_king(b, h, cfg, col);
                let q = square(x, home_rank_of(col));
                assert(piece_at(s, q) == h.cell(q.x as int, q.y as int));
                assert(h.cell(q.x as int, q.y as int) == configuration_cell(cfg, x, home_rank_of(col)));
            }
        }
        assert(!pawn_on_home_rank(s)) by {
            if pawn_on_home_rank(s) {
                let i = choose|i: int|
                    0 <= i < 32 && #[trigger] s[i] is Some && s[i]->Some_0.piece.piece == PieceKind::Pawn && (
                    s[i]->Some_0.position.y == 0 || s[i]->Some_0.position.y == 7);
                lemma_start_square(b, h, cfg, i);
            }
        }
    }
}

/// Building a board from a grid and writing it back as a grid gives the
/// grid again, with only the en passant target that the board keeps.
pub proof fn lemma_grid_round_trip(h: HashableBoard, b: Board, g: HashableBoard)
    requires
        built_from_grid(h, Ok(b)),
        forall|q: Coord| q.wf() ==> #[trigger] g.cell(q.x as int, q.y as int) == piece_at(b.pieces@, q),
        g.current_player == b.current_player,
        g.castling_right == b.castling_right,
        g.en_passant_target == b.en_passant_target,
    ensures
        forall|x: int, y: int| 0 <= x < 8 && 0 <= y < 8 ==> #[trigger] g.cell(x, y) == h.cell(x, y),
        g.current_player == h.current_player,
        g.castling_right == h.castling_right,
        g.en_passant_target == kept_en_passant(h),
{
    assert forall|x: int, y: int| 0 <= x < 8 && 0 <= y < 8 implies #[trigger] g.cell(x, y) == h.cell(x, y) by {
        let q = square(x, y);
        assert(g.cell(q.x as int, q.y as int) == piece_at(b.pieces@, q));
    }
}

impl Board {
    /// The standard starting position.
    pub fn starting_position() -> (r: Board)
        ensures
            r.wf(),
            starting_board(r, standard_rank()),
            validation(r) == Ok::<(), InvalidBoard>(()),
    {
        let h = HashableBoard::starting_position();
        proof {
            lemma_standard_rank();
            lemma_starting_grid(h, standard_rank());
        }
        let r = Board::try_from_hashable(h);
        proof {
            if r is Err {
                let b = choose|b: Board| b.wf() && grid_matches(b, h) && match r {
                    Ok(built) => built == b && validation(b) == Ok::<(), InvalidBoard>(()),
                    Err(e) => validation(b) == Err::<(), InvalidBoard>(e),
                };
                assert(validation(b) == Ok::<(), InvalidBoard>(()));
            }
        }
        r.unwrap()
    }

    /// Chess960 starting position number `id` (below 960).
    pub fn chess960(id: u16) -> (r: Board)
        requires
            id < 960,
        ensures
            r.wf(),
            starting_board(r, chess960_rank(id as int)),
            validation(r) == Ok::<(), InvalidBoard>(()),
    {
        let h = HashableBoard::chess960(id);
        proof {
            lemma_chess960_rank(id as int);
            lemma_starting_grid(h, chess960_rank(id as int));
        }
        let r = Board::try_from_hashable(h);
        proof {
            if r is Err {
                let b = choose|b: Board| b.wf() && grid_matches(b, h) && match r {
                    Ok(built) => built == b && validation(b) == Ok::<(), InvalidBoard>(()),
                    Err(e) => validation(b) == Err::<(), InvalidBoard>(e),
                };
                assert(validation(b) == Ok::<(), InvalidBoard>(()));
            }
        }
        r.unwrap()
    }
}


/// A move other than castling, legal on a board that passes every check,
/// leaves a board that passes every check: the side that moved is not in
/// check, at most two pieces give check, every castling right still has its
/// king and rook, a new en passant target lies behind the pawn that just
/// stepped past it, and no pawn stands on the first or last rank.
pub proof fn lemma_plain_move_keeps_validation(b: Board, m: Move, a: Board)
    requires
        b.wf(),
        validation(b) == Ok::<(), InvalidBoard>(()),
        legal(b, m),
        m.castling_rook is None,
        a.pieces@ == apply_slots(b.pieces@, b.current_player, m),
        a.current_player == b.current_player.other(),
        a.castling_right == m.castling_right,
        a.en_passant_target == m.en_passant_target,
    ensures
        validation(a) == Ok::<(), InvalidBoard>(()),
{
    let s = b.pieces@;
    let c = b.current_player;
    let after = a.pieces@;
    lemma_legal_move_keeps_wf(b, m);
    if takes_en_passant(b, m) {
        lemma_en_passant_checkers(b, m);
    } else {
        lemma_plain_move_checkers(b, m);
    }
    if exists|x: int| castle_legal(b, x) && m == #[trigger] castle_move(b, x) {
        let x = choose|x: int| castle_legal(b, x) && m == #[trigger] castle_move(b, x);
        assert(m.castling_rook is Some);
    }
    let (i, d, promo) = choose|i: int, d: Coord, promo: Option<PieceKind>|
        plain_legal(b, i, d, promo) && m == #[trigger] plain_move(b, i, d, promo);
    assert(pseudo_legal(b, i, d, promo));
    let p = s[i]->Some_0;
    let cap = capture_of(b, i, d);
    if let Some(ci) = cap {
        assert(s[ci]->Some_0.piece.color != c);
        assert(ci != i);
        assert(after[ci] is None);
    }
    assert(c.other().other() == c);
    // slots other than the mover's and the captured one are untouched
    assert forall|j: int| 0 <= j < 32 && j != i && cap != Some(j) implies after[j] == s[j] by {}
    // no pawn on the first or last rank
    assert(!pawn_on_home_rank(after)) by {
        if pawn_on_home_rank(after) {
            let j = choose|j: int|
                0 <= j < 32 && #[trigger] after[j] is Some && after[j]->Some_0.piece.piece == PieceKind::Pawn && (
                after[j]->Some_0.position.y == 0 || after[j]->Some_0.position.y == 7);
            if j == i {
                assert(reaches(b, i, d));
                assert(!(s[i] is Some && p.piece.piece == PieceKind::Pawn && (p.position.y == 0 || p.position.y == 7)));
            } else {
                assert(s[j] == after[j]);
            }
        }
    }
    // the en passant target
    if let Some(t) = m.en_passant_target {
        assert(p.piece.piece == PieceKind::Pawn && d.x == p.position.x && d.y - p.position.y == 2 * pawn_dir(c));
        assert(reaches(b, i, d));
        assert(p.position.y == pawn_home_rank_of(c));
        assert(en_passant_color_of(t.y as int) == Some(c));
        assert(square(t.x as int, t.y + pawn_dir(c)) == d);
        assert(promo is None);
        assert(occ(after, d, i));
        lemma_index_at(after, d, i);
    }
    // every castling right keeps its king and rook
    b.castling_right.lemma_cleared(c);
    if 0 <= p.position.x < 8 {
        b.castling_right.lemma_removed(c, p.position.x as int);
    }
    let base = if p.piece.piece == PieceKind::Rook && p.position.y == home_rank_of(c) {
        b.castling_right.removed(c, p.position.x as int)
    } else if p.piece.piece == PieceKind::King {
        b.castling_right.cleared(c)
    } else {
        b.castling_right
    };
    if let Some(ci) = cap {
        let q = s[ci]->Some_0;
        assert(q.position.wf());
        base.lemma_removed(q.piece.color, q.position.x as int);
    }
    assert forall|col: Color, x: int| 0 <= x < 8 && #[trigger] a.castling_right.has(col, x) implies after[king_slot(
        col,
    )]->Some_0.position.y == home_rank_of(col) && piece_at(after, square(x, home_rank_of(col))) == Some(
        ColoredPieceKind { color: col, piece: PieceKind::Rook },
    ) by {
        assert(b.castling_right.has(col, x));
        assert(rights_backed(b, col));
        let sq = square(x, home_rank_of(col));
        let r = index_at(s, sq)->Some_0;
        assert(occupied(s, sq));
        assert(occ(s, sq, r));
        assert(s[r]->Some_0.piece == ColoredPieceKind { color: col, piece: PieceKind::Rook });
        assert(r != i) by {
            if r == i {
                assert(p.position == sq);
            }
        }
        if cap == Some(r) {
            assert(s[r]->Some_0.position == sq);
        }
        assert(after[r] == s[r]);
        assert(occ(after, sq, r));
        lemma_index_at(after, sq, r);
        let k = king_slot(col);
        assert(s[k] is Some);
        assert(k != i);
        assert(cap != Some(k));
        assert(after[k] == s[k]);
    }
    assert(rights_backed(a, Color::White));
    assert(rights_backed(a, Color::Black));
    assert(!attacked_by(after, after[king_slot(c)]->Some_0.position, c.other()));
}


/// A piece of `color` attacks `t` only if it already did on slots that hold
/// the same pieces of `color` and no more occupied squares.
proof fn lemma_attack_on_fewer(small: Slots, big: Slots, t: Coord, color: Color)
    requires
        small.len() == 32,
        big.len() == 32,
        forall|sq: Coord| #[trigger] occupied(small, sq) ==> occupied(big, sq),
        forall|j: int|
            0 <= j < 32 && #[trigger] big[j] is Some && big[j]->Some_0.piece.color == color ==> small[j] == big[j],
        attacked_by(big, t, color),
    ensures
        attacked_by(small, t, color),
{
    let j = choose|j: int| #[trigger] attacker(big, t, color, j);
    let p = big[j]->Some_0;
    assert(small[j] == big[j]);
    assert forall|k: int| clear_path(big, p.position, t) && 0 < k < distance(p.position, t) implies !#[trigger] occupied(
        small,
        line_step(p.position, t, k),
    ) by {
        if occupied(small, line_step(p.position, t, k)) {
            assert(occupied(big, line_step(p.position, t, k)));
        }
    }
    assert(attacker(small, t, color, j));
}

/// Two pieces giving check along the king's rank from the same side are one.
proof fn lemma_one_per_side(after: Slots, kp: Coord, c: Color, j1: int, j2: int)
    requires
        slots_wf(after),
        kp.wf(),
        attacker(after, kp, c, j1),
        attacker(after, kp, c, j2),
        after[j1]->Some_0.position.y == kp.y,
        after[j2]->Some_0.position.y == kp.y,
        (after[j1]->Some_0.position.x < kp.x) == (after[j2]->Some_0.position.x < kp.x),
    ensures
        j1 == j2,
{
    if j1 != j2 {
        let p1 = after[j1]->Some_0.position;
        let p2 = after[j2]->Some_0.position;
        assert(after[j1] is Some && after[j2] is Some);
        assert(p1 != p2);
        let d1 = abs_int(p1.x - kp.x);
        let d2 = abs_int(p2.x - kp.x);
        assert(d1 != d2);
        if d1 < d2 {
            assert(attacks(after, after[j2]->Some_0, kp));
            assert(straight(p2, kp) && clear_path(after, p2, kp));
            assert(distance(p2, kp) == d2);
            assert(line_step(p2, kp, d2 - d1) == p1);
            assert(occ(after, p1, j1));
            assert(occupied(after, line_step(p2, kp, d2 - d1)));
        } else {
            assert(attacks(after, after[j1]->Some_0, kp));
            assert(straight(p1, kp) && clear_path(after, p1, kp));
            assert(distance(p1, kp) == d1);
            assert(line_step(p1, kp, d1 - d2) == p2);
            assert(occ(after, p2, j2));
            assert(occupied(after, line_step(p1, kp, d1 - d2)));
        }
    }
}

/// A piece whose way to `t` along a line passes a square of the first or
/// last rank stands on that rank, and so does `t`.
proof fn lemma_way_through_edge_rank(p: Coord, t: Coord, k: int)
    requires
        p.wf(),
        t.wf(),
        step_on_line(p, t, k),
        line_step(p, t, k).y == 0 || line_step(p, t, k).y == 7,
    ensures
        p.y == t.y,
        line_step(p, t, k).y == t.y,
{
    let v = line_step(p, t, k);
    assert(v.y as int == along(p.y as int, t.y as int, k));
}

/// After castling, a piece other than the king and the rook that gives
/// check, and did not before, stands on the king's rank, which is the first
/// or last: the squares left empty are on that rank.
proof fn lemma_discovered_by_castling(s: Slots, after: Slots, kp: Coord, c: Color, k: int, r: int, home: int, j: int)
    requires
        slots_wf(s),
        slots_wf(after),
        kp.wf(),
        home == 0 || home == 7,
        0 <= k < 32,
        0 <= r < 32,
        s[k] is Some && s[k]->Some_0.position.y == home,
        s[r] is Some && s[r]->Some_0.position.y == home,
        forall|q: int| 0 <= q < 32 && q != k && q != r ==> after[q] == s[q],
        !attacked_by(s, kp, c),
        attacker(after, kp, c, j),
        j != k,
        j != r,
    ensures
        after[j]->Some_0.position.y == kp.y,
        kp.y == home,
{
    assert(after[j] == s[j]);
    assert(!attacker(s, kp, c, j));
    let pc = s[j]->Some_0;
    let pj = pc.position;
    assert(attacks(after, pc, kp));
    assert(!attacks(s, pc, kp));
    assert(diagonal(pj, kp) || straight(pj, kp));
    assert(clear_path(after, pj, kp));
    assert(!clear_path(s, pj, kp));
    let i = choose|i: int| 0 < i < distance(pj, kp) && #[trigger] occupied(s, line_step(pj, kp, i));
    let sq = line_step(pj, kp, i);
    let q = choose|q: int| #[trigger] occ(s, sq, q);
    assert(!occupied(after, sq));
    if q != k && q != r {
        assert(after[q] == s[q]);
        assert(occ(after, sq, q));
    }
    assert(sq.y == home);
    lemma_way_through_edge_rank(pj, kp, i);
}

/// Castling, legal on a board where the side not to move is not in check,
/// gives check with at most two pieces: the king does not give check, and
/// any other piece that does stands on the king's rank, at most one on each
/// side of it, unless only the rook gives check.
#[verifier::rlimit(40)]
proof fn lemma_castle_checkers(b: Board, m: Move)
    requires
        b.wf(),
        !attacked_by(b.pieces@, b.pieces@[king_slot(b.current_player.other())]->Some_0.position, b.current_player),
        legal(b, m),
        m.castling_rook is Some,
    ensures
        ({
            let after = apply_slots(b.pieces@, b.current_player, m);
            attacker_count(
                after,
                after[king_slot(b.current_player.other())]->Some_0.position,
                b.current_player,
                32,
            ) <= 2
        }),
{
    let s = b.pieces@;
    let c = b.current_player;
    let o = c.other();
    let after = apply_slots(s, c, m);
    lemma_legal_move_keeps_wf(b, m);
    if exists|i: int, d: Coord, promo: Option<PieceKind>|
        plain_legal(b, i, d, promo) && m == #[trigger] plain_move(b, i, d, promo) {
        let (i, d, promo) = choose|i: int, d: Coord, promo: Option<PieceKind>|
            plain_legal(b, i, d, promo) && m == #[trigger] plain_move(b, i, d, promo);
        assert(m.castling_rook is None);
    }
    let x = choose|x: int| castle_legal(b, x) && m == #[trigger] castle_move(b, x);
    let home = home_rank_of(c);
    let k = king_slot(c);
    let king = s[k]->Some_0;
    let r = index_at(s, square(x, home))->Some_0;
    assert(occ(s, square(x, home), r));
    assert(m.castling_rook->Some_0.index.0 as int == r);
    assert(r != k);
    let kd = m.movement.destination;
    let rd = m.castling_rook->Some_0.destination;
    assert(after[k] == Some(Piece { piece: king.piece, position: kd }));
    assert(after[r] == Some(Piece { piece: s[r]->Some_0.piece, position: rd }));
    assert forall|j: int| 0 <= j < 32 && j != k && j != r implies after[j] == s[j] by {}
    assert(s[r]->Some_0.piece.color == c);
    let ko = king_slot(o);
    assert(s[ko] is Some);
    assert(ko != k && ko != r);
    assert(after[ko] == s[ko]);
    let kp = s[ko]->Some_0.position;
    assert(kp.wf());
    // the king gives no check
    assert(!attacker(after, kp, c, k)) by {
        if attacker(after, kp, c, k) {
            assert(king_apart(kd, kp));
            if kd == king.position {
                assert(attacker(s, kp, c, k));
            } else {
                let kf = castle_king_file(king.position.x as int, x);
                assert(kd == square(kf, home));
                assert(on_rank_path(king.position.x as int, kf, kf));
                let removed = s.update(k, None).update(r, None);
                assert(!attacked_by(removed, square(kf, home), o));
                assert(removed[ko] == s[ko]);
                assert(attacker(removed, kd, o, ko));
            }
        }
    }
    assert(s[r]->Some_0.position.y == home);
    assert(king.position.y == home);
    assert forall|j: int| #[trigger] attacker(after, kp, c, j) && j != k && j != r implies after[j]->Some_0.position.y
        == kp.y && kp.y == home by {
        lemma_discovered_by_castling(s, after, kp, c, k, r, home, j);
    }
    if kp.y == home {
        assert(rd.y == home);
        let left = if exists|j: int| #[trigger] attacker(after, kp, c, j) && after[j]->Some_0.position.x < kp.x {
            choose|j: int| #[trigger] attacker(after, kp, c, j) && after[j]->Some_0.position.x < kp.x
        } else {
            r
        };
        let right = if exists|j: int| #[trigger] attacker(after, kp, c, j) && after[j]->Some_0.position.x > kp.x {
            choose|j: int| #[trigger] attacker(after, kp, c, j) && after[j]->Some_0.position.x > kp.x
        } else {
            r
        };
        assert forall|j: int| #[trigger] attacker(after, kp, c, j) implies j == left || j == right by {
            assert(j != k);
            let pj = after[j]->Some_0.position;
            assert(pj.y == kp.y);
            assert(after[j] is Some && after[ko] is Some);
            assert(j != ko);
            assert(pj != kp);
            if pj.x < kp.x {
                lemma_one_per_side(after, kp, c, left, j);
            } else {
                lemma_one_per_side(after, kp, c, right, j);
            }
        }
        lemma_attacker_count_of_two(after, kp, c, left, right, 32);
    } else {
        assert forall|j: int| #[trigger] attacker(after, kp, c, j) implies j == r by {
            assert(j != k);
        }
        lemma_attacker_count_of_two(after, kp, c, r, r, 32);
    }
}

/// Castling, legal on a board that passes every check, leaves a board that
/// passes every check, but where the king keeps its square and only the rook
/// moves, perhaps the one on the side that moved being in check.
pub proof fn lemma_castle_keeps_validation(b: Board, m: Move, a: Board)
    requires
        b.wf(),
        validation(b) == Ok::<(), InvalidBoard>(()),
        legal(b, m),
        m.castling_rook is Some,
        a.pieces@ == apply_slots(b.pieces@, b.current_player, m),
        a.current_player == b.current_player.other(),
        a.castling_right == m.castling_right,
        a.en_passant_target == m.en_passant_target,
    ensures
        validation(a) == Ok::<(), InvalidBoard>(()) || (m.movement.destination == b.pieces@[king_slot(
            b.current_player,
        )]->Some_0.position && validation(a) == Err::<(), InvalidBoard>(InvalidBoard::NonPlayerInCheck)),
{
    let s = b.pieces@;
    let c = b.current_player;
    let o = c.other();
    let after = a.pieces@;
    lemma_legal_move_keeps_wf(b, m);
    lemma_castle_checkers(b, m);
    if exists|i: int, d: Coord, promo: Option<PieceKind>|
        plain_legal(b, i, d, promo) && m == #[trigger] plain_move(b, i, d, promo) {
        let (i, d, promo) = choose|i: int, d: Coord, promo: Option<PieceKind>|
            plain_legal(b, i, d, promo) && m == #[trigger] plain_move(b, i, d, promo);
        assert(m.castling_rook is None);
    }
    let x = choose|x: int| castle_legal(b, x) && m == #[trigger] castle_move(b, x);
    let home = home_rank_of(c);
    let k = king_slot(c);
    let king = s[k]->Some_0;
    let r = index_at(s, square(x, home))->Some_0;
    assert(occ(s, square(x, home), r));
    assert(m.castling_rook->Some_0.index.0 as int == r);
    assert(r != k);
    let kd = m.movement.destination;
    let rd = m.castling_rook->Some_0.destination;
    assert(after[k] == Some(Piece { piece: king.piece, position: kd }));
    assert(after[r] == Some(Piece { piece: s[r]->Some_0.piece, position: rd }));
    assert forall|j: int| 0 <= j < 32 && j != k && j != r implies after[j] == s[j] by {}
    assert(s[r]->Some_0.piece.color == c);
    assert(c.other().other() == c);
    // no pawn on the first or last rank
    assert(!pawn_on_home_rank(after)) by {
        if pawn_on_home_rank(after) {
            let j = choose|j: int|
                0 <= j < 32 && #[trigger] after[j] is Some && after[j]->Some_0.piece.piece == PieceKind::Pawn && (
                after[j]->Some_0.position.y == 0 || after[j]->Some_0.position.y == 7);
            assert(j != k && j != r);
            assert(s[j] == after[j]);
        }
    }
    // the other side keeps its castling rights with its king and rooks
    b.castling_right.lemma_cleared(c);
    assert forall|col: Color, f: int| 0 <= f < 8 && #[trigger] a.castling_right.has(col, f) implies after[king_slot(
        col,
    )]->Some_0.position.y == home_rank_of(col) && piece_at(after, square(f, home_rank_of(col))) == Some(
        ColoredPieceKind { color: col, piece: PieceKind::Rook },
    ) by {
        assert(col == o);
        assert(b.castling_right.has(col, f));
        assert(rights_backed(b, col));
        let sq = square(f, home_rank_of(col));
        let q = index_at(s, sq)->Some_0;
        assert(occupied(s, sq));
        assert(occ(s, sq, q));
        assert(s[q]->Some_0.piece.color == o);
        assert(q != k && q != r);
        assert(after[q] == s[q]);
        assert(occ(after, sq, q));
        lemma_index_at(after, sq, q);
        assert(king_slot(col) != k);
        assert(s[king_slot(col)] is Some);
        assert(after[king_slot(col)] == s[king_slot(col)]);
    }
    assert(rights_backed(a, Color::White));
    assert(rights_backed(a, Color::Black));
    // where the king moves, its new square was not attacked
    if kd != king.position {
        let kf = castle_king_file(king.position.x as int, x);
        assert(kd == square(kf, home));
        assert(on_rank_path(king.position.x as int, kf, kf));
        let removed = s.update(k, None).update(r, None);
        assert(!attacked_by(removed, square(kf, home), o));
        assert forall|sq: Coord| #[trigger] occupied(removed, sq) implies occupied(after, sq) by {
            let j = choose|j: int| #[trigger] occ(removed, sq, j);
            assert(j != k && j != r);
            assert(occ(after, sq, j));
        }
        assert forall|j: int|
            0 <= j < 32 && #[trigger] after[j] is Some && after[j]->Some_0.piece.color == o implies removed[j]
                == after[j] by {
            assert(j != k && j != r);
        }
        if attacked_by(after, kd, o) {
            lemma_attack_on_fewer(removed, after, kd, o);
        }
    }
}


/// Counting attackers among slots that all lie in `{a1, a2}` gives at most
/// one for each of them below `n`.
proof fn lemma_attacker_count_of_two(s: Slots, t: Coord, color: Color, a1: int, a2: int, n: int)
    requires
        forall|j: int| #[trigger] attacker(s, t, color, j) ==> j == a1 || j == a2,
    ensures
        attacker_count(s, t, color, n) <= (if 0 <= a1 < n { 1int } else { 0int }) + (if 0 <= a2 < n && a2 != a1 {
            1int
        } else {
            0int
        }),
    decreases n,
{
    if n > 0 {
        lemma_attacker_count_of_two(s, t, color, a1, a2, n - 1);
    }
}

/// The square `k` steps from `p` toward `t`, on a line from `p` to `t`.
spec fn step_on_line(p: Coord, t: Coord, k: int) -> bool {
    (diagonal(p, t) || straight(p, t)) && 0 < k < distance(p, t)
}

/// Two pieces on lines to `t` whose ways both pass `v`: the nearer one
/// stands on the way of the farther one.
proof fn lemma_nearer_on_the_way(t: Coord, v: Coord, p1: Coord, p2: Coord, k1: int, k2: int)
    requires
        p1.wf(),
        p2.wf(),
        t.wf(),
        p1 != p2,
        step_on_line(p1, t, k1),
        step_on_line(p2, t, k2),
        line_step(p1, t, k1) == v,
        line_step(p2, t, k2) == v,
    ensures
        (0 < distance(p2, t) - distance(p1, t) && line_step(p2, t, distance(p2, t) - distance(p1, t)) == p1) || (0
            < distance(p1, t) - distance(p2, t) && line_step(p1, t, distance(p1, t) - distance(p2, t)) == p2),
{
    let d1 = distance(p1, t);
    let d2 = distance(p2, t);
    assert(v.x as int == along(p1.x as int, t.x as int, k1));
    assert(v.y as int == along(p1.y as int, t.y as int, k1));
    assert(v.x as int == along(p2.x as int, t.x as int, k2));
    assert(v.y as int == along(p2.y as int, t.y as int, k2));
    if d1 < d2 {
        let k = d2 - d1;
        assert(along(p2.x as int, t.x as int, k) == p1.x as int);
        assert(along(p2.y as int, t.y as int, k) == p1.y as int);
    } else if d2 < d1 {
        let k = d1 - d2;
        assert(along(p1.x as int, t.x as int, k) == p2.x as int);
        assert(along(p1.y as int, t.y as int, k) == p2.y as int);
    } else {
        assert(p1.x as int == p2.x as int);
        assert(p1.y as int == p2.y as int);
    }
}


/// A piece that gives check after a move, but did not before, and is not the
/// piece that moved, has the square the mover left on its way.
proof fn lemma_discovered(s: Slots, after: Slots, kp: Coord, c: Color, i: int, cap: Option<int>, d: Coord, j: int)
    requires
        slots_wf(s),
        slots_wf(after),
        0 <= i < 32,
        s[i] is Some,
        occ(after, d, i),
        cap matches Some(ci) ==> occ(s, d, ci) && after[ci] is None,
        forall|q: int| 0 <= q < 32 && q != i && cap != Some(q) ==> after[q] == s[q],
        !attacked_by(s, kp, c),
        attacker(after, kp, c, j),
        j != i,
    ensures
        ({
            let pj = after[j]->Some_0.position;
            exists|k: int| step_on_line(pj, kp, k) && line_step(pj, kp, k) == s[i]->Some_0.position
        }),
{
    assert(cap != Some(j));
    assert(after[j] == s[j]);
    assert(!attacker(s, kp, c, j));
    let pc = s[j]->Some_0;
    let pj = pc.position;
    assert(attacks(after, pc, kp));
    assert(!attacks(s, pc, kp));
    assert(diagonal(pj, kp) || straight(pj, kp));
    assert(clear_path(after, pj, kp));
    assert(!clear_path(s, pj, kp));
    let k = choose|k: int| 0 < k < distance(pj, kp) && #[trigger] occupied(s, line_step(pj, kp, k));
    let sq = line_step(pj, kp, k);
    let q = choose|q: int| #[trigger] occ(s, sq, q);
    assert(!occupied(after, sq));
    if q == i {
        assert(step_on_line(pj, kp, k));
    } else if cap == Some(q) {
        assert(s[q] is Some);
        assert(sq == d) by {
            assert(occ(s, d, q));
        }
        assert(occ(after, sq, i));
    } else {
        assert(after[q] == s[q]);
        assert(occ(after, sq, q));
    }
}

/// Only one piece gives check through a given square on its way.
proof fn lemma_one_discovered(after: Slots, kp: Coord, c: Color, v: Coord, j1: int, j2: int)
    requires
        slots_wf(after),
        kp.wf(),
        attacker(after, kp, c, j1),
        attacker(after, kp, c, j2),
        ({
            let p1 = after[j1]->Some_0.position;
            exists|k: int| step_on_line(p1, kp, k) && line_step(p1, kp, k) == v
        }),
        ({
            let p2 = after[j2]->Some_0.position;
            exists|k: int| step_on_line(p2, kp, k) && line_step(p2, kp, k) == v
        }),
    ensures
        j1 == j2,
{
    if j1 != j2 {
        let p1 = after[j1]->Some_0.position;
        let p2 = after[j2]->Some_0.position;
        let k1 = choose|k: int| step_on_line(p1, kp, k) && line_step(p1, kp, k) == v;
        let k2 = choose|k: int| step_on_line(p2, kp, k) && line_step(p2, kp, k) == v;
        assert(after[j1] is Some && after[j2] is Some);
        assert(p1 != p2);
        lemma_nearer_on_the_way(kp, v, p1, p2, k1, k2);
        let pc1 = after[j1]->Some_0;
        let pc2 = after[j2]->Some_0;
        assert(attacks(after, pc1, kp) && attacks(after, pc2, kp));
        if 0 < distance(p2, kp) - distance(p1, kp) {
            assert(occ(after, p1, j1));
            assert(clear_path(after, p2, kp));
            assert(occupied(after, line_step(p2, kp, distance(p2, kp) - distance(p1, kp))));
        } else {
            assert(occ(after, p2, j2));
            assert(clear_path(after, p1, kp));
            assert(occupied(after, line_step(p1, kp, distance(p1, kp) - distance(p2, kp))));
        }
    }
}

/// The move takes a pawn en passant.
pub open spec fn takes_en_passant(b: Board, m: Move) -> bool {
    let p = b.pieces@[m.movement.index.0 as int]->Some_0;
    &&& p.piece.piece == PieceKind::Pawn
    &&& pawn_attacks(p.position, m.movement.destination, p.piece.color)
    &&& b.en_passant_target == Some(m.movement.destination)
}

/// A square on the way of a piece along a line to `t` lies on a rank, file or
/// diagonal through `t`.
proof fn lemma_way_lined_up(p: Coord, t: Coord, k: int)
    requires
        p.wf(),
        t.wf(),
        step_on_line(p, t, k),
    ensures
        ({
            let v = line_step(p, t, k);
            v.x == t.x || v.y == t.y || abs_int(v.x - t.x) == abs_int(v.y - t.y)
        }),
{
    let v = line_step(p, t, k);
    assert(v.x as int == along(p.x as int, t.x as int, k));
    assert(v.y as int == along(p.y as int, t.y as int, k));
}

/// After taking en passant, a piece other than the pawn that gives check,
/// and did not before, has on its way the square the pawn left or the square
/// of the pawn it took.
proof fn lemma_discovered_en_passant(
    s: Slots,
    after: Slots,
    kp: Coord,
    c: Color,
    i: int,
    cap: Option<int>,
    d: Coord,
    j: int,
)
    requires
        slots_wf(s),
        slots_wf(after),
        0 <= i < 32,
        s[i] is Some,
        occ(after, d, i),
        cap matches Some(ci) ==> 0 <= ci < 32 && ci != i && s[ci] is Some && after[ci] is None,
        forall|q: int| 0 <= q < 32 && q != i && cap != Some(q) ==> after[q] == s[q],
        !attacked_by(s, kp, c),
        attacker(after, kp, c, j),
        j != i,
    ensures
        ({
            let pj = after[j]->Some_0.position;
            (exists|k: int| step_on_line(pj, kp, k) && line_step(pj, kp, k) == s[i]->Some_0.position) || (
            cap is Some && exists|k: int|
                step_on_line(pj, kp, k) && line_step(pj, kp, k) == s[cap->Some_0]->Some_0.position)
        }),
{
    assert(cap != Some(j));
    assert(after[j] == s[j]);
    assert(!attacker(s, kp, c, j));
    let pc = s[j]->Some_0;
    let pj = pc.position;
    assert(attacks(after, pc, kp));
    assert(!attacks(s, pc, kp));
    assert(diagonal(pj, kp) || straight(pj, kp));
    assert(clear_path(after, pj, kp));
    assert(!clear_path(s, pj, kp));
    let k = choose|k: int| 0 < k < distance(pj, kp) && #[trigger] occupied(s, line_step(pj, kp, k));
    let sq = line_step(pj, kp, k);
    let q = choose|q: int| #[trigger] occ(s, sq, q);
    assert(!occupied(after, sq));
    assert(step_on_line(pj, kp, k));
    if q != i && cap != Some(q) {
        assert(after[q] == s[q]);
        assert(occ(after, sq, q));
    }
}

/// Where a pawn that took en passant gives check, the square of the pawn it
/// took is on no piece's way to the king.
proof fn lemma_no_check_through_taken(d: Coord, kp: Coord, c: Color, pj: Coord, k: int)
    requires
        d.wf(),
        kp.wf(),
        pj.wf(),
        1 <= d.y <= 6,
        pawn_attacks(d, kp, c),
        step_on_line(pj, kp, k),
    ensures
        line_step(pj, kp, k) != pawn_front(d, c.other()),
{
    lemma_way_lined_up(pj, kp, k);
}

/// Slot `j`, not `i`, gives check to a king on `kp` with `v` on its way.
spec fn check_through(after: Slots, kp: Coord, c: Color, i: int, j: int, v: Coord) -> bool {
    &&& attacker(after, kp, c, j)
    &&& j != i
    &&& exists|k: int| step_on_line(after[j]->Some_0.position, kp, k) && line_step(after[j]->Some_0.position, kp, k) == v
}

/// Taking en passant onto the third or sixth rank, legal on a board where
/// the side not to move is not in check, gives check with at most two pieces: a piece that gives check
/// through the square of the pawn taken does not stand on a line with the
/// king where the pawn that took gives check, and through each of the two
/// squares left empty at most one piece gives check.
#[verifier::rlimit(40)]
proof fn lemma_en_passant_checkers(b: Board, m: Move)
    requires
        b.wf(),
        !attacked_by(b.pieces@, b.pieces@[king_slot(b.current_player.other())]->Some_0.position, b.current_player),
        legal(b, m),
        m.castling_rook is None,
        takes_en_passant(b, m),
        b.en_passant_target matches Some(t) ==> en_passant_color_of(t.y as int) is Some,
    ensures
        ({
            let after = apply_slots(b.pieces@, b.current_player, m);
            attacker_count(
                after,
                after[king_slot(b.current_player.other())]->Some_0.position,
                b.current_player,
                32,
            ) <= 2
        }),
{
    let s = b.pieces@;
    let c = b.current_player;
    let o = c.other();
    let after = apply_slots(s, c, m);
    lemma_legal_move_keeps_wf(b, m);
    if exists|x: int| castle_legal(b, x) && m == #[trigger] castle_move(b, x) {
        let x = choose|x: int| castle_legal(b, x) && m == #[trigger] castle_move(b, x);
        assert(m.castling_rook is Some);
    }
    let (i, d, promo) = choose|i: int, d: Coord, promo: Option<PieceKind>|
        plain_legal(b, i, d, promo) && m == #[trigger] plain_move(b, i, d, promo);
    assert(pseudo_legal(b, i, d, promo));
    let p = s[i]->Some_0;
    let cap = capture_of(b, i, d);
    let tp = pawn_front(d, o);
    assert(cap == index_at(s, tp));
    assert(1 <= d.y <= 6);
    if let Some(ci) = cap {
        assert(occ(s, tp, ci));
        assert(s[ci]->Some_0.piece.color != c);
        assert(ci != i);
        assert(after[ci] is None);
        assert(s[ci]->Some_0.position == tp);
    }
    let ko = king_slot(o);
    assert(s[ko] is Some);
    assert(ko != i);
    assert(cap != Some(ko));
    assert(after[ko] == s[ko]);
    let kp = s[ko]->Some_0.position;
    assert(kp.wf());
    assert(occ(after, d, i));
    assert forall|q: int| 0 <= q < 32 && q != i && cap != Some(q) implies after[q] == s[q] by {}
    let vo = p.position;
    assert forall|j: int| #[trigger] attacker(after, kp, c, j) && j != i implies ({
        let pj = after[j]->Some_0.position;
        (exists|k: int| step_on_line(pj, kp, k) && line_step(pj, kp, k) == vo) || (cap is Some && exists|k: int|
            step_on_line(pj, kp, k) && line_step(pj, kp, k) == s[cap->Some_0]->Some_0.position)
    }) by {
        lemma_discovered_en_passant(s, after, kp, c, i, cap, d, j);
    }
    // the pieces giving check through the square the pawn left, and through
    // the square of the pawn taken
    let vt = s[cap->Some_0]->Some_0.position;
    let j1 = if exists|j: int| #[trigger] check_through(after, kp, c, i, j, vo) {
        choose|j: int| #[trigger] check_through(after, kp, c, i, j, vo)
    } else {
        i
    };
    let j2 = if cap is Some && exists|j: int| #[trigger] check_through(after, kp, c, i, j, vt) {
        choose|j: int| #[trigger] check_through(after, kp, c, i, j, vt)
    } else {
        i
    };
    assert forall|j: int| #[trigger] check_through(after, kp, c, i, j, vo) implies j == j1 by {
        lemma_one_discovered(after, kp, c, vo, j1, j);
    }
    assert forall|j: int| cap is Some && #[trigger] check_through(after, kp, c, i, j, vt) implies j == j2 by {
        lemma_one_discovered(after, kp, c, vt, j2, j);
    }
    if attacker(after, kp, c, i) {
        // the pawn gives check: no piece gives check through the square of the pawn taken
        assert(promo is None);
        assert(pawn_attacks(d, kp, c));
        assert forall|j: int| !(cap is Some && #[trigger] check_through(after, kp, c, i, j, vt)) by {
            if cap is Some && check_through(after, kp, c, i, j, vt) {
                let pj = after[j]->Some_0.position;
                let k = choose|k: int| step_on_line(pj, kp, k) && line_step(pj, kp, k) == vt;
                assert(after[j] is Some);
                lemma_no_check_through_taken(d, kp, c, pj, k);
            }
        }
        assert forall|j: int| #[trigger] attacker(after, kp, c, j) implies j == i || j == j1 by {
            if j != i {
                assert(check_through(after, kp, c, i, j, vo) || (cap is Some && check_through(after, kp, c, i, j, vt)));
            }
        }
        lemma_attacker_count_of_two(after, kp, c, i, j1, 32);
    } else {
        assert forall|j: int| #[trigger] attacker(after, kp, c, j) implies j == j1 || j == j2 by {
            assert(j != i);
            assert(check_through(after, kp, c, i, j, vo) || (cap is Some && check_through(after, kp, c, i, j, vt)));
        }
        lemma_attacker_count_of_two(after, kp, c, j1, j2, 32);
    }
}

/// A move other than castling or taking en passant, legal on a board where
/// the side not to move is not in check, gives check with at most two
/// pieces: the one that moved, and one whose way ran through the square it
/// left.
proof fn lemma_plain_move_checkers(b: Board, m: Move)
    requires
        b.wf(),
        !attacked_by(b.pieces@, b.pieces@[king_slot(b.current_player.other())]->Some_0.position, b.current_player),
        legal(b, m),
        m.castling_rook is None,
        !takes_en_passant(b, m),
    ensures
        ({
            let after = apply_slots(b.pieces@, b.current_player, m);
            attacker_count(
                after,
                after[king_slot(b.current_player.other())]->Some_0.position,
                b.current_player,
                32,
            ) <= 2
        }),
{
    let s = b.pieces@;
    let c = b.current_player;
    let o = c.other();
    let after = apply_slots(s, c, m);
    lemma_legal_move_keeps_wf(b, m);
    if exists|x: int| castle_legal(b, x) && m == #[trigger] castle_move(b, x) {
        let x = choose|x: int| castle_legal(b, x) && m == #[trigger] castle_move(b, x);
        assert(m.castling_rook is Some);
    }
    let (i, d, promo) = choose|i: int, d: Coord, promo: Option<PieceKind>|
        plain_legal(b, i, d, promo) && m == #[trigger] plain_move(b, i, d, promo);
    assert(pseudo_legal(b, i, d, promo));
    let p = s[i]->Some_0;
    let cap = capture_of(b, i, d);
    assert(cap == index_at(s, d));
    if let Some(ci) = cap {
        assert(occ(s, d, ci));
        assert(s[ci]->Some_0.piece.color != c);
        assert(ci != i);
    }
    let ko = king_slot(o);
    assert(s[ko] is Some);
    assert(ko != i);
    assert(cap != Some(ko));
    assert(after[ko] == s[ko]);
    let kp = s[ko]->Some_0.position;
    assert(occ(after, d, i));
    assert forall|q: int| 0 <= q < 32 && q != i && cap != Some(q) implies after[q] == s[q] by {}
    if let Some(ci) = cap {
        assert(after[ci] is None);
    }
    assert forall|j: int| #[trigger] attacker(after, kp, c, j) && j != i implies ({
        let pj = after[j]->Some_0.position;
        exists|k: int| step_on_line(pj, kp, k) && line_step(pj, kp, k) == p.position
    }) by {
        lemma_discovered(s, after, kp, c, i, cap, d, j);
    }
    // at most one such piece
    if exists|j: int| #[trigger] attacker(after, kp, c, j) && j != i {
        let j1 = choose|j: int| #[trigger] attacker(after, kp, c, j) && j != i;
        assert forall|j: int| #[trigger] attacker(after, kp, c, j) implies j == i || j == j1 by {
            if j != i && j != j1 {
                lemma_one_discovered(after, kp, c, p.position, j1, j);
            }
        }
        lemma_attacker_count_of_two(after, kp, c, i, j1, 32);
    } else {
        lemma_attacker_count_of_two(after, kp, c, i, i, 32);
    }
}


/// A board with a pawn of either color on its first or last rank does not
/// pass the checks of a sound position.
pub proof fn lemma_pawn_on_edge_rank_invalid(b: Board, i: int)
    requires
        b.wf(),
        0 <= i < 32,
        b.pieces@[i] is Some,
        b.pieces@[i]->Some_0.piece.piece == PieceKind::Pawn,
        b.pieces@[i]->Some_0.position.y == 0 || b.pieces@[i]->Some_0.position.y == 7,
    ensures
        validation(b) != Ok::<(), InvalidBoard>(()),
{
    assert(pawn_on_home_rank(b.pieces@));
}

/// A grid with a pawn of either color on its first or last rank is never
/// built into a board.
pub proof fn lemma_grid_pawn_on_edge_rank_refused(h: HashableBoard, r: Result<Board, InvalidBoard>, q: Coord, c: Color)
    requires
        built_from_grid(h, r),
        q.wf(),
        q.y == 0 || q.y == 7,
        h.cell(q.x as int, q.y as int) == Some(ColoredPieceKind { color: c, piece: PieceKind::Pawn }),
    ensures
        r is Err,
{
    if r is Ok {
        assert(fits(h));
        assert(en_passant_rank_ok(h));
        assert(has_king(h, Color::White) && has_king(h, Color::Black));
        let b = choose|b: Board|
            b.wf() && grid_matches(b, h) && match r {
                Ok(built) => built == b && validation(b) == Ok::<(), InvalidBoard>(()),
                Err(e) => validation(b) == Err::<(), InvalidBoard>(e),
            };
        let s = b.pieces@;
        assert(piece_at(s, q) == h.cell(q.x as int, q.y as int));
        let i = index_at(s, q)->Some_0;
        assert(occupied(s, q));
        assert(occ(s, q, i));
        lemma_pawn_on_edge_rank_invalid(b, i);
    }
}

/// The color of the side that can take en passant on a target of the sixth
/// (row 2) or third (row 5) rank: white on the sixth, black on the third.
pub open spec fn capturing_side(t: Coord) -> Color {
    if t.y == 2 {
        Color::White
    } else {
        Color::Black
    }
}

/// A grid keeps its en passant target exactly when the target lies on the
/// third or sixth rank, is empty, and a pawn of the side that can take there
/// attacks it.
pub proof fn lemma_kept_en_passant_exactly(h: HashableBoard, t: Coord)
    requires
        h.en_passant_target == Some(t),
        t.y == 2 || t.y == 5,
    ensures
        kept_en_passant(h) == Some(t) <==> (h.cell(t.x as int, t.y as int) is None && exists|q: Coord|
            q.wf() && #[trigger] h.cell(q.x as int, q.y as int) == Some(
                ColoredPieceKind { color: capturing_side(t), piece: PieceKind::Pawn },
            ) && pawn_attacks(q, t, capturing_side(t))),
        kept_en_passant(h) is None ==> !(h.cell(t.x as int, t.y as int) is None && exists|q: Coord|
            q.wf() && #[trigger] h.cell(q.x as int, q.y as int) == Some(
                ColoredPieceKind { color: capturing_side(t), piece: PieceKind::Pawn },
            ) && pawn_attacks(q, t, capturing_side(t))),
{
    assert(en_passant_color_of(t.y as int)->Some_0.other() == capturing_side(t));
}

/// A board built from a grid whose en passant target is empty and attacked
/// by a pawn of the side that can take there keeps that target.
pub proof fn lemma_built_keeps_en_passant(h: HashableBoard, b: Board, t: Coord, q: Coord)
    requires
        built_from_grid(h, Ok(b)),
        h.en_passant_target == Some(t),
        t.y == 2 || t.y == 5,
        h.cell(t.x as int, t.y as int) is None,
        q.wf(),
        h.cell(q.x as int, q.y as int) == Some(ColoredPieceKind { color: capturing_side(t), piece: PieceKind::Pawn }),
        pawn_attacks(q, t, capturing_side(t)),
    ensures
        b.en_passant_target == Some(t),
{
    lemma_kept_en_passant_exactly(h, t);
    assert(fits(h));
    assert(en_passant_rank_ok(h));
    assert(has_king(h, Color::White) && has_king(h, Color::Black));
}

} // verus!
