//! Forsyth–Edwards Notation: reading and writing whole positions.
use vstd::prelude::*;
use crate::castling_right::{
    castling_text, standard_castling_text, CastlingRight, InvalidCastlingCharacter,
    StandardCastlingRight,
};
use crate::color::{parse_color, Color, ParseColorError};
use crate::coord::{coord_text, home_rank_of, parse_coord_spec, push_char, Coord, ParseCoordError};
use crate::decimal::{decimal_text, parse_u32, parse_unsigned, push_decimal, ParseIntError};
use crate::hashable::{first_of, HashableBoard};
use crate::misc::{chars_of, lemma_split_concat, lemma_split_single, split_chars, split_on, views};
use crate::piece::{fen_letter, is_upper_ascii, kind_of_letter, ColoredPieceKind, InvalidFenPiece, PieceKind};

verus! {

/// Why a text is not a FEN position.
#[derive(Debug, Clone, Copy, PartialEq, Eq, Hash, Structural)]
pub enum ParseFenError {
    ExceededRowCount,
    ExceededSquareCount,
    InvalidRowCount(usize),
    InvalidSquareCount(usize),
    InvalidSpaceCharacter(char),
    InvalidFenPiece(InvalidFenPiece),
    ParseColorError(ParseColorError),
    InvalidCastlingCharacter(InvalidCastlingCharacter),
    ParseCoordError(ParseCoordError),
    ParseIntError(ParseIntError),
    Unexpected(char),
    UnexpectedEol,
}

/// A position with its move counters.
#[derive(Debug, Clone, Copy, PartialEq, Eq, Hash)]
pub struct Fen {
    pub board: HashableBoard,
    pub half_move: u32,
    pub full_move: u32,
}

/// The piece a FEN letter names: uppercase for white, otherwise black.
pub open spec fn colored_of_letter(c: char) -> Option<ColoredPieceKind> {
    match kind_of_letter(c) {
        Some(k) => Some(
            ColoredPieceKind { color: if is_upper_ascii(c) { Color::White } else { Color::Black }, piece: k },
        ),
        None => None,
    }
}

/// An empty row.
pub open spec fn empty_row() -> Seq<Option<ColoredPieceKind>> {
    Seq::new(8, |i: int| None)
}

/// Reading a FEN row from character `i` on, at file `x`, with the cells read
/// so far: digits 1 to 8 skip that many files, letters put a piece.
pub open spec fn parse_row_from(row: Seq<char>, i: int, x: int, cells: Seq<Option<ColoredPieceKind>>) -> Result<
    Seq<Option<ColoredPieceKind>>,
    ParseFenError,
>
    decreases row.len() - i,
{
    if i < 0 || i >= row.len() {
        if x < 8 {
            Err(ParseFenError::InvalidSquareCount(x as usize))
        } else {
            Ok(cells)
        }
    } else {
        let c = row[i];
        if c == '0' || c == '9' {
            Err(ParseFenError::InvalidSpaceCharacter(c))
        } else if '1' <= c <= '8' {
            parse_row_from(row, i + 1, x + (c as int - '0' as int), cells)
        } else if x >= 8 {
            Err(ParseFenError::ExceededSquareCount)
        } else {
            match colored_of_letter(c) {
                None => Err(ParseFenError::InvalidFenPiece(InvalidFenPiece(c))),
                Some(p) => parse_row_from(row, i + 1, x + 1, cells.update(x, Some(p))),
            }
        }
    }
}

/// Reading the rows of a FEN board from row `y` on.
pub open spec fn parse_rows_from(rows: Seq<Seq<char>>, y: int, grid: Seq<Seq<Option<ColoredPieceKind>>>) -> Result<
    Seq<Seq<Option<ColoredPieceKind>>>,
    ParseFenError,
>
    decreases rows.len() - y,
{
    if y < 0 || y >= rows.len() {
        if y < 8 {
            Err(ParseFenError::InvalidRowCount(y as usize))
        } else {
            Ok(grid)
        }
    } else if y >= 8 {
        Err(ParseFenError::ExceededRowCount)
    } else {
        match parse_row_from(rows[y], 0, 0, empty_row()) {
            Err(e) => Err(e),
            Ok(cells) => parse_rows_from(rows, y + 1, grid.update(y, cells)),
        }
    }
}

/// What reading the board field of a FEN gives: eight rows split by `/`.
pub open spec fn parse_board_spec(s: Seq<char>) -> Result<Seq<Seq<Option<ColoredPieceKind>>>, ParseFenError> {
    parse_rows_from(split_on(s, '/'), 0, Seq::new(8, |i: int| empty_row()))
}

/// The cells of a grid as rows of cells.
pub open spec fn grid_view(g: [[Option<ColoredPieceKind>; 8]; 8]) -> Seq<Seq<Option<ColoredPieceKind>>> {
    g@.map_values(|row: [Option<ColoredPieceKind>; 8]| row@)
}

/// What reading the en passant field gives: `-` for none, else a square.
pub open spec fn parse_en_passant(s: Seq<char>) -> Result<Option<Coord>, ParseFenError> {
    if s == seq!['-'] {
        Ok(None)
    } else {
        match parse_coord_spec(s) {
            Ok(c) => Ok(Some(c)),
            Err(e) => Err(ParseFenError::ParseCoordError(e)),
        }
    }
}

/// A counter field read as a `u32`.
pub open spec fn parse_counter(s: Seq<char>) -> Result<u32, ParseFenError> {
    match parse_unsigned(s, u32::MAX as int) {
        Ok(v) => Ok(v as u32),
        Err(e) => Err(ParseFenError::ParseIntError(e)),
    }
}

/// The fields of a FEN position: the grid, side to move, castling rights,
/// en passant target and the two counters.
pub struct FenFields {
    pub grid: Seq<Seq<Option<ColoredPieceKind>>>,
    pub player: Color,
    pub rights: CastlingRight,
    pub en_passant: Option<Coord>,
    pub half_move: u32,
    pub full_move: u32,
}

/// What reading a FEN gives: six fields split by single spaces, read in order,
/// the first error found reported; a missing field is an unexpected end.
pub open spec fn parse_fen(s: Seq<char>) -> Result<FenFields, ParseFenError> {
    let secs = split_on(s, ' ');
    match parse_board_spec(secs[0]) {
        Err(e) => Err(e),
        Ok(grid) => if secs.len() < 2 {
            Err(ParseFenError::UnexpectedEol)
        } else {
            match parse_color(secs[1]) {
                Err(e) => Err(ParseFenError::ParseColorError(e)),
                Ok(player) => if secs.len() < 3 {
                    Err(ParseFenError::UnexpectedEol)
                } else {
                    match CastlingRight::parse_result(secs[2]) {
                        Err(e) => Err(ParseFenError::InvalidCastlingCharacter(e)),
                        Ok(rights) => if secs.len() < 4 {
                            Err(ParseFenError::UnexpectedEol)
                        } else {
                            match parse_en_passant(secs[3]) {
                                Err(e) => Err(e),
                                Ok(en_passant) => if secs.len() < 5 {
                                    Err(ParseFenError::UnexpectedEol)
                                } else {
                                    match parse_counter(secs[4]) {
                                        Err(e) => Err(e),
                                        Ok(half_move) => if secs.len() < 6 {
                                            Err(ParseFenError::UnexpectedEol)
                                        } else {
                                            match parse_counter(secs[5]) {
                                                Err(e) => Err(e),
                                                Ok(full_move) => if secs.len() > 6 {
                                                    Err(
                                                        ParseFenError::Unexpected(
                                                            if secs[6].len() > 0 {
                                                                secs[6][0]
                                                            } else {
                                                                ' '
                                                            },
                                                        ),
                                                    )
                                                } else {
                                                    Ok(
                                                        FenFields {
                                                            grid,
                                                            player,
                                                            rights,
                                                            en_passant,
                                                            half_move,
                                                            full_move,
                                                        },
                                                    )
                                                },
                                            }
                                        },
                                    }
                                },
                            }
                        },
                    }
                },
            }
        },
    }
}

/// The position holds the fields read.
pub open spec fn fen_has_fields(f: Fen, t: FenFields) -> bool {
    &&& grid_view(f.board.board) == t.grid
    &&& f.board.current_player == t.player
    &&& f.board.castling_right == t.rights
    &&& f.board.en_passant_target == t.en_passant
    &&& f.half_move == t.half_move
    &&& f.full_move == t.full_move
}

/// The text of a run of `n` empty squares.
pub open spec fn run_text(n: int) -> Seq<char> {
    if n > 0 {
        seq![(n + 48) as char]
    } else {
        Seq::empty()
    }
}

/// The FEN text of a row from file `x` on, after `run` empty squares.
pub open spec fn row_text_from(row: Seq<Option<ColoredPieceKind>>, x: int, run: int) -> Seq<char>
    decreases 8 - x,
{
    if x >= 8 {
        run_text(run)
    } else {
        match row[x] {
            None => row_text_from(row, x + 1, run + 1),
            Some(p) => run_text(run) + seq![fen_letter(p)] + row_text_from(row, x + 1, 0),
        }
    }
}

/// The FEN text of the rows of a grid from row `y` on, split by `/`.
pub open spec fn board_text_from(grid: Seq<Seq<Option<ColoredPieceKind>>>, y: int) -> Seq<char>
    decreases 8 - y,
{
    if y >= 7 {
        row_text_from(grid[7], 0, 0)
    } else {
        row_text_from(grid[y], 0, 0) + seq!['/'] + board_text_from(grid, y + 1)
    }
}

/// The castling rights of `c` can be written in standard notation: each is
/// on the a- or h-file, with the king on the e-file and no other rook of the
/// side between it and that corner.
pub open spec fn side_standard(h: HashableBoard, c: Color) -> bool {
    let row = h.board@[home_rank_of(c)]@;
    let rook = Some(ColoredPieceKind { color: c, piece: PieceKind::Rook });
    let king_in_position = first_of(row, ColoredPieceKind { color: c, piece: PieceKind::King }, 0, 8)
        == Some(4int);
    forall|x: int|
        0 <= x < 8 && #[trigger] h.castling_right.has(c, x) ==> king_in_position && ((x == 0
            && row[1] != rook && row[2] != rook && row[3] != rook) || (x == 7 && row[5] != rook
            && row[6] != rook))
}

/// The side to move as FEN writes it: `w` or `b`.
pub open spec fn fen_color_text(c: Color) -> Seq<char> {
    match c {
        Color::White => seq!['w'],
        Color::Black => seq!['b'],
    }
}

/// The name of a side: `white` or `black`.
pub open spec fn color_text(c: Color) -> Seq<char> {
    match c {
        Color::White => seq!['w', 'h', 'i', 't', 'e'],
        Color::Black => seq!['b', 'l', 'a', 'c', 'k'],
    }
}

/// The text of a position: the board, the side to move, the castling rights
/// (standard notation when both sides allow it, otherwise file letters), the
/// en passant target or `-`, and the two counters, split by spaces.
pub open spec fn fen_text(f: Fen) -> Seq<char> {
    let h = f.board;
    board_text_from(grid_view(h.board), 0) + seq![' '] + fen_color_text(h.current_player) + seq![' ']
        + if side_standard(h, Color::White) && side_standard(h, Color::Black) {
        standard_castling_text(h.castling_right)
    } else {
        castling_text(h.castling_right)
    } + seq![' '] + match h.en_passant_target {
        Some(t) => coord_text(t),
        None => seq!['-'],
    } + seq![' '] + decimal_text(f.half_move as nat) + seq![' '] + decimal_text(f.full_move as nat)
}

/// A string with the given characters.
pub fn string_of(v: &Vec<char>) -> (s: String)
    ensures
        s@ == v@,
{
    let mut s = String::new();
    let mut i: usize = 0;
    while i < v.len()
        invariant
            0 <= i <= v@.len(),
            s@ == v@.subrange(0, i as int),
        decreases v@.len() - i,
    {
        push_char(&mut s, v[i]);
        i = i + 1;
        proof {
            assert(s@ =~= v@.subrange(0, i as int));
        }
    }
    proof {
        assert(s@ =~= v@);
    }
    s
}

proof fn lemma_parse_row_shift(
    u: Seq<char>,
    v: Seq<char>,
    j: int,
    x: int,
    cells: Seq<Option<ColoredPieceKind>>,
)
    requires
        0 <= j <= v.len(),
    ensures
        parse_row_from(u + v, u.len() + j, x, cells) == parse_row_from(v, j, x, cells),
    decreases v.len() - j,
{
    if j < v.len() {
        let c = v[j];
        assert((u + v)[u.len() + j] == c);
        if '1' <= c <= '8' {
            lemma_parse_row_shift(u, v, j + 1, x + (c as int - '0' as int), cells);
        } else if let Some(p) = colored_of_letter(c) {
            lemma_parse_row_shift(u, v, j + 1, x + 1, cells.update(x, Some(p)));
        }
    }
}

/// A FEN letter is no digit.
proof fn lemma_fen_letter_shape(p: ColoredPieceKind)
    ensures
        !('0' <= fen_letter(p) <= '9'),
        colored_of_letter(fen_letter(p)) == Some(p),
        fen_letter(p) != '/',
        fen_letter(p) != ' ',
{
    crate::piece::lemma_fen_round_trip(p);
}

/// The characters of a row's text are digits from 1 to 8 and FEN letters.
proof fn lemma_row_text_chars(row: Seq<Option<ColoredPieceKind>>, x: int, run: int)
    requires
        0 <= run <= 8,
        0 <= x,
        run + (8 - x) <= 8 || x >= 8,
    ensures
        !row_text_from(row, x, run).contains('/'),
        !row_text_from(row, x, run).contains(' '),
    decreases 8 - x,
{
    if x >= 8 {
    } else {
        match row[x] {
            None => {
                if run + 1 <= 8 {
                    lemma_row_text_chars(row, x + 1, run + 1);
                }
            },
            Some(p) => {
                lemma_row_text_chars(row, x + 1, 0);
                lemma_fen_letter_shape(p);
                let t = run_text(run) + seq![fen_letter(p)] + row_text_from(row, x + 1, 0);
                assert forall|k: int| 0 <= k < t.len() implies t[k] != '/' && t[k] != ' ' by {
                    if k >= run_text(run).len() + 1 {
                        assert(t[k] == row_text_from(row, x + 1, 0)[k - run_text(run).len() - 1]);
                    }
                }
            },
        }
    }
}

/// Reading the text of a row from file `x` on, after `run` empty squares,
/// into cells that hold the row before those squares gives the row back.
proof fn lemma_row_round_trip(
    row: Seq<Option<ColoredPieceKind>>,
    x: int,
    run: int,
    cells: Seq<Option<ColoredPieceKind>>,
)
    requires
        row.len() == 8,
        0 <= run <= x <= 8,
        forall|k: int| x - run <= k < x ==> row[k] is None,
        cells.len() == 8,
        forall|k: int| 0 <= k < x - run ==> cells[k] == row[k],
        forall|k: int| x - run <= k < 8 ==> cells[k] is None,
    ensures
        parse_row_from(row_text_from(row, x, run), 0, x - run, cells) == Ok::<
            Seq<Option<ColoredPieceKind>>,
            ParseFenError,
        >(row),
    decreases 8 - x,
{
    if x >= 8 {
        assert(cells =~= row);
        if run > 0 {
            let t = run_text(run);
            assert(t[0] == (run + 48) as char);
            assert(parse_row_from(t, 1, 8, cells) == Ok::<Seq<Option<ColoredPieceKind>>, ParseFenError>(cells));
        }
    } else {
        match row[x] {
            None => {
                lemma_row_round_trip(row, x + 1, run + 1, cells);
            },
            Some(p) => {
                let rest = row_text_from(row, x + 1, 0);
                let letter = seq![fen_letter(p)];
                let cells2 = cells.update(x, Some(p));
                lemma_row_round_trip(row, x + 1, 0, cells2);
                lemma_fen_letter_shape(p);
                lemma_parse_row_shift(letter, rest, 0, x + 1, cells2);
                assert((letter + rest)[0] == fen_letter(p));
                assert(parse_row_from(letter + rest, 0, x, cells) == parse_row_from(letter + rest, 1, x + 1, cells2));
                if run > 0 {
                    let d = run_text(run);
                    assert(d[0] == (run + 48) as char);
                    assert((d + (letter + rest))[0] == d[0]);
                    lemma_parse_row_shift(d, letter + rest, 0, x, cells);
                    assert(row_text_from(row, x, run) =~= d + (letter + rest));
                } else {
                    assert(row_text_from(row, x, run) =~= letter + rest);
                }
            },
        }
    }
}

/// The rows of a board's text, from row `y` on, are the texts of its rows.
proof fn lemma_board_split(grid: Seq<Seq<Option<ColoredPieceKind>>>, y: int)
    requires
        0 <= y <= 7,
    ensures
        split_on(board_text_from(grid, y), '/') == Seq::new((8 - y) as nat, |i: int| row_text_from(grid[y + i], 0, 0)),
        !board_text_from(grid, y).contains(' '),
    decreases 8 - y,
{
    lemma_row_text_chars(grid[y], 0, 0);
    let row = row_text_from(grid[y], 0, 0);
    if y == 7 {
        lemma_split_single(row, '/');
        assert(seq![row] =~= Seq::new(1, |i: int| row_text_from(grid[7 + i], 0, 0)));
    } else {
        lemma_board_split(grid, y + 1);
        let rest = board_text_from(grid, y + 1);
        lemma_split_concat(row, rest, '/');
        assert(seq![row] + Seq::new((8 - (y + 1)) as nat, |i: int| row_text_from(grid[y + 1 + i], 0, 0))
            =~= Seq::new((8 - y) as nat, |i: int| row_text_from(grid[y + i], 0, 0)));
        let t = row + seq!['/'] + rest;
        assert forall|k: int| 0 <= k < t.len() implies t[k] != ' ' by {
            if k < row.len() {
                assert(t[k] == row[k]);
                if row[k] == ' ' {
                    assert(row.contains(' '));
                }
            } else if k > row.len() {
                assert(t[k] == rest[k - row.len() - 1]);
                if rest[k - row.len() - 1] == ' ' {
                    assert(rest.contains(' '));
                }
            }
        }
    }
}

/// Reading the texts of a grid's rows, from row `y` on, into a grid that
/// holds the rows before gives the grid back.
proof fn lemma_rows_round_trip(
    grid: Seq<Seq<Option<ColoredPieceKind>>>,
    rows: Seq<Seq<char>>,
    y: int,
    g: Seq<Seq<Option<ColoredPieceKind>>>,
)
    requires
        grid.len() == 8,
        forall|i: int| 0 <= i < 8 ==> (#[trigger] grid[i]).len() == 8,
        rows.len() == 8,
        forall|i: int| 0 <= i < 8 ==> #[trigger] rows[i] == row_text_from(grid[i], 0, 0),
        0 <= y <= 8,
        g.len() == 8,
        forall|i: int| 0 <= i < y ==> #[trigger] g[i] == grid[i],
    ensures
        parse_rows_from(rows, y, g) == Ok::<Seq<Seq<Option<ColoredPieceKind>>>, ParseFenError>(grid),
    decreases 8 - y,
{
    if y == 8 {
        assert(g =~= grid);
    } else {
        lemma_row_round_trip(grid[y], 0, 0, empty_row());
        assert(rows[y] == row_text_from(grid[y], 0, 0));
        lemma_rows_round_trip(grid, rows, y + 1, g.update(y, grid[y]));
    }
}

/// The characters of a side's name and of a square's name.
proof fn lemma_field_chars(c: Color, t: Coord, n: nat)
    requires
        t.wf(),
    ensures
        !fen_color_text(c).contains(' '),
        !coord_text(t).contains(' '),
        coord_text(t) != seq!['-'],
        !seq!['-'].contains(' '),
        !decimal_text(n).contains(' '),
{
    crate::decimal::lemma_decimal_digits(n);
    if decimal_text(n).contains(' ') {
        let i = choose|i: int| 0 <= i < decimal_text(n).len() && decimal_text(n)[i] == ' ';
        assert(crate::decimal::is_digit(decimal_text(n)[i]));
    }
    if fen_color_text(c).contains(' ') {
        let i = choose|i: int| 0 <= i < fen_color_text(c).len() && fen_color_text(c)[i] == ' ';
    }
    if coord_text(t).contains(' ') {
        let i = choose|i: int| 0 <= i < coord_text(t).len() && coord_text(t)[i] == ' ';
    }
    if seq!['-'].contains(' ') {
        let i = choose|i: int| 0 <= i < 1 && seq!['-'][i] == ' ';
    }
}

/// The castling field that the text of a position writes.
pub open spec fn castling_field(h: HashableBoard) -> Seq<char> {
    if side_standard(h, Color::White) && side_standard(h, Color::Black) {
        standard_castling_text(h.castling_right)
    } else {
        castling_text(h.castling_right)
    }
}

/// The en passant field that the text of a position writes.
pub open spec fn en_passant_field(h: HashableBoard) -> Seq<char> {
    match h.en_passant_target {
        Some(t) => coord_text(t),
        None => seq!['-'],
    }
}

/// The text of a position is its six fields split by spaces.
proof fn lemma_fen_split(f: Fen)
    requires
        f.board.wf(),
    ensures
        split_on(fen_text(f), ' ') == seq![
            board_text_from(grid_view(f.board.board), 0),
            fen_color_text(f.board.current_player),
            castling_field(f.board),
            en_passant_field(f.board),
            decimal_text(f.half_move as nat),
            decimal_text(f.full_move as nat),
        ],
        CastlingRight::parse_result(castling_field(f.board)) == Ok::<CastlingRight, InvalidCastlingCharacter>(
            f.board.castling_right,
        ),
{
    let h = f.board;
    let grid = grid_view(h.board);
    let b = board_text_from(grid, 0);
    let c = fen_color_text(h.current_player);
    let k = castling_field(h);
    let e = en_passant_field(h);
    let hm = decimal_text(f.half_move as nat);
    let fm = decimal_text(f.full_move as nat);
    let sp = seq![' '];
    assert(fen_text(f) =~= b + sp + (c + sp + (k + sp + (e + sp + (hm + sp + fm)))));
    lemma_board_split(grid, 0);
    let t = match h.en_passant_target {
        Some(t) => t,
        None => Coord { x: 0, y: 0 },
    };
    lemma_field_chars(h.current_player, t, f.half_move as nat);
    lemma_field_chars(h.current_player, t, f.full_move as nat);
    crate::castling_right::lemma_castling_text_round_trip(h.castling_right);
    assert(!k.contains(' ')) by {
        if k.contains(' ') {
            let i = choose|i: int| 0 <= i < k.len() && k[i] == ' ';
            assert(!crate::castling_right::castling_char_valid(k[i]));
        }
    }
    lemma_split_single(fm, ' ');
    lemma_split_concat(hm, fm, ' ');
    lemma_split_concat(e, hm + sp + fm, ' ');
    lemma_split_concat(k, e + sp + (hm + sp + fm), ' ');
    lemma_split_concat(c, k + sp + (e + sp + (hm + sp + fm)), ' ');
    lemma_split_concat(b, c + sp + (k + sp + (e + sp + (hm + sp + fm))), ' ');
}

/// Reading the text of a position gives back the position: its grid, side
/// to move, castling rights, en passant target and counters.
pub proof fn lemma_fen_text_round_trip(f: Fen)
    requires
        f.board.wf(),
    ensures
        parse_fen(fen_text(f)) matches Ok(t) && fen_has_fields(f, t),
{
    let h = f.board;
    let grid = grid_view(h.board);
    assert(grid.len() == 8);
    assert forall|i: int| 0 <= i < 8 implies (#[trigger] grid[i]).len() == 8 by {
        assert(grid[i] == h.board@[i]@);
    }
    lemma_fen_split(f);
    let b = board_text_from(grid, 0);
    lemma_board_split(grid, 0);
    let rows = split_on(b, '/');
    assert forall|i: int| 0 <= i < 8 implies #[trigger] rows[i] == row_text_from(grid[i], 0, 0) by {
    }
    lemma_rows_round_trip(grid, rows, 0, Seq::new(8, |i: int| empty_row()));
    assert(parse_board_spec(b) == Ok::<Seq<Seq<Option<ColoredPieceKind>>>, ParseFenError>(grid));
    assert(seq!['b'][0] != seq!['w'][0] && seq!['b'][0] != seq!['W'][0]);
    assert(seq!['b'].len() != seq!['w', 'h', 'i', 't', 'e'].len());
    assert(parse_color(fen_color_text(h.current_player)) == Ok::<Color, ParseColorError>(h.current_player));
    if let Some(t) = h.en_passant_target {
        crate::coord::lemma_coord_text_round_trip(t);
        assert(coord_text(t) != seq!['-']);
    }
    crate::decimal::lemma_decimal_round_trip(f.half_move as nat, u32::MAX as int);
    crate::decimal::lemma_decimal_round_trip(f.full_move as nat, u32::MAX as int);
}

proof fn lemma_row_capped(row: Seq<char>, i: int, x: int, cells: Seq<Option<ColoredPieceKind>>)
    requires
        x >= 8,
    ensures
        parse_row_from(row, i, x, cells) == parse_row_from(row, i, 8, cells),
    decreases row.len() - i,
{
    if 0 <= i < row.len() {
        let c = row[i];
        if '1' <= c <= '8' && c != '0' && c != '9' {
            lemma_row_capped(row, i + 1, x + (c as int - '0' as int), cells);
            lemma_row_capped(row, i + 1, 8 + (c as int - '0' as int), cells);
        }
    }
}

/// Reads one FEN row, as `parse_row_from` says.
fn parse_row(row: &Vec<char>) -> (r: Result<[Option<ColoredPieceKind>; 8], ParseFenError>)
    ensures
        match parse_row_from(row@, 0, 0, empty_row()) {
            Ok(cells) => r matches Ok(a) && a@ == cells,
            Err(e) => r == Err::<[Option<ColoredPieceKind>; 8], ParseFenError>(e),
        },
{
    let mut cells: [Option<ColoredPieceKind>; 8] = [None; 8];
    let mut x: usize = 0;
    let ghost mut gx: int = 0;
    let mut i: usize = 0;
    proof {
        assert(cells@ =~= empty_row());
    }
    while i < row.len()
        invariant
            0 <= i <= row@.len(),
            0 <= x <= 8,
            x == if gx < 8 { gx } else { 8 },
            gx >= 0,
            parse_row_from(row@, 0, 0, empty_row()) == parse_row_from(row@, i as int, gx, cells@),
        decreases row@.len() - i,
    {
        let c = row[i];
        if c == '0' || c == '9' {
            return Err(ParseFenError::InvalidSpaceCharacter(c));
        } else if '1' <= c && c <= '8' {
            let d = (c as u32 - '0' as u32) as usize;
            proof {
                gx = gx + d;
            }
            x = if x + d > 8 {
                8
            } else {
                x + d
            };
        } else if x >= 8 {
            return Err(ParseFenError::ExceededSquareCount);
        } else {
            match ColoredPieceKind::from_fen(c) {
                Ok(p) => {
                    cells[x] = Some(p);
                    proof {
                        gx = gx + 1;
                    }
                    x = x + 1;
                },
                Err(e) => {
                    return Err(ParseFenError::InvalidFenPiece(e));
                },
            }
        }
        i = i + 1;
    }
    if x < 8 {
        return Err(ParseFenError::InvalidSquareCount(x));
    }
    proof {
        lemma_row_capped(row@, i as int, gx, cells@);
    }
    Ok(cells)
}

/// Reads the board field of a FEN, as `parse_board_spec` says.
fn parse_board(s: &Vec<char>) -> (r: Result<[[Option<ColoredPieceKind>; 8]; 8], ParseFenError>)
    ensures
        match parse_board_spec(s@) {
            Ok(g) => r matches Ok(a) && grid_view(a) == g,
            Err(e) => r == Err::<[[Option<ColoredPieceKind>; 8]; 8], ParseFenError>(e),
        },
{
    let rows = split_chars(s, '/');
    let mut board: [[Option<ColoredPieceKind>; 8]; 8] = [[None; 8]; 8];
    let mut y: usize = 0;
    proof {
        assert(grid_view(board) =~= Seq::new(8, |i: int| empty_row())) by {
            assert forall|i: int| 0 <= i < 8 implies #[trigger] grid_view(board)[i] =~= empty_row() by {}
        }
    }
    while y < rows.len()
        invariant
            0 <= y <= rows@.len(),
            y <= 8,
            views(rows@) == split_on(s@, '/'),
            parse_board_spec(s@) == parse_rows_from(views(rows@), y as int, grid_view(board)),
        decreases rows@.len() - y,
    {
        if y >= 8 {
            return Err(ParseFenError::ExceededRowCount);
        }
        proof {
            assert(views(rows@)[y as int] == rows@[y as int]@);
        }
        match parse_row(&rows[y]) {
            Ok(cells) => {
                let ghost before = board;
                board[y] = cells;
                proof {
                    assert(grid_view(board) =~= grid_view(before).update(y as int, cells@));
                }
            },
            Err(e) => {
                return Err(e);
            },
        }
        y = y + 1;
    }
    if y < 8 {
        return Err(ParseFenError::InvalidRowCount(y));
    }
    Ok(board)
}


impl Fen {
    /// Reads a FEN position, as `parse_fen` says.
    pub fn parse(s: &str) -> (r: Result<Fen, ParseFenError>)
        ensures
            match parse_fen(s@) {
                Ok(fields) => r matches Ok(f) && fen_has_fields(f, fields),
                Err(e) => r == Err::<Fen, ParseFenError>(e),
            },
            r matches Ok(f) ==> f.board.wf(),
    {
        let cs = chars_of(s);
        let secs = split_chars(&cs, ' ');
        proof {
            lemma_split_nonempty(s@, ' ');
            assert(views(secs@) == split_on(s@, ' '));
            assert(secs@.len() > 0);
            assert(views(secs@)[0] == secs@[0]@);
        }
        let board = match parse_board(&secs[0]) {
            Ok(b) => b,
            Err(e) => {
                return Err(e);
            },
        };
        if secs.len() < 2 {
            return Err(ParseFenError::UnexpectedEol);
        }
        proof {
            assert(views(secs@)[1] == secs@[1]@);
        }
        let player_text = string_of(&secs[1]);
        let current_player = match Color::parse(player_text.as_str()) {
            Ok(c) => c,
            Err(e) => {
                return Err(ParseFenError::ParseColorError(e));
            },
        };
        if secs.len() < 3 {
            return Err(ParseFenError::UnexpectedEol);
        }
        proof {
            assert(views(secs@)[2] == secs@[2]@);
        }
        let rights_text = string_of(&secs[2]);
        let castling_right = match StandardCastlingRight::parse(rights_text.as_str()) {
            Ok(cr) => cr.0,
            Err(e) => {
                return Err(ParseFenError::InvalidCastlingCharacter(e));
            },
        };
        if secs.len() < 4 {
            return Err(ParseFenError::UnexpectedEol);
        }
        proof {
            assert(views(secs@)[3] == secs@[3]@);
        }
        let en_passant_target = if secs[3].len() == 1 && secs[3][0] == '-' {
            proof {
                assert(secs@[3]@ =~= seq!['-']);
            }
            None
        } else {
            let target_text = string_of(&secs[3]);
            proof {
                if secs@[3]@ == seq!['-'] {
                    assert(secs@[3]@.len() == 1);
                }
            }
            match Coord::parse(target_text.as_str()) {
                Ok(c) => Some(c),
                Err(e) => {
                    return Err(ParseFenError::ParseCoordError(e));
                },
            }
        };
        if secs.len() < 5 {
            return Err(ParseFenError::UnexpectedEol);
        }
        proof {
            assert(views(secs@)[4] == secs@[4]@);
        }
        let half_move = match parse_u32(&secs[4]) {
            Ok(v) => v,
            Err(e) => {
                return Err(ParseFenError::ParseIntError(e));
            },
        };
        if secs.len() < 6 {
            return Err(ParseFenError::UnexpectedEol);
        }
        proof {
            assert(views(secs@)[5] == secs@[5]@);
        }
        let full_move = match parse_u32(&secs[5]) {
            Ok(v) => v,
            Err(e) => {
                return Err(ParseFenError::ParseIntError(e));
            },
        };
        if secs.len() > 6 {
            proof {
                assert(views(secs@)[6] == secs@[6]@);
            }
            let c = if secs[6].len() > 0 {
                secs[6][0]
            } else {
                ' '
            };
            return Err(ParseFenError::Unexpected(c));
        }
        Ok(
            Fen {
                board: HashableBoard { board, current_player, castling_right, en_passant_target },
                half_move,
                full_move,
            },
        )
    }
}

/// Splitting gives at least one piece.
pub proof fn lemma_split_nonempty(s: Seq<char>, sep: char)
    ensures
        split_on(s, sep).len() > 0,
{
    lemma_split_from_len(s, sep, 0, Seq::empty(), Seq::empty());
}

proof fn lemma_split_from_len(s: Seq<char>, sep: char, i: int, cur: Seq<char>, done: Seq<Seq<char>>)
    ensures
        crate::misc::split_from(s, sep, i, cur, done).len() > done.len(),
    decreases s.len() - i,
{
    if 0 <= i < s.len() {
        if s[i] == sep {
            lemma_split_from_len(s, sep, i + 1, Seq::empty(), done.push(cur));
        } else {
            lemma_split_from_len(s, sep, i + 1, cur.push(s[i]), done);
        }
    }
}

/// Appends the FEN text of a row.
fn push_row(s: &mut String, row: &[Option<ColoredPieceKind>; 8])
    ensures
        final(s)@ == old(s)@ + row_text_from(row@, 0, 0),
{
    let mut run: u8 = 0;
    let mut x: usize = 0;
    while x < 8
        invariant
            0 <= x <= 8,
            run <= x,
            old(s)@ + row_text_from(row@, 0, 0) == s@ + row_text_from(row@, x as int, run as int),
        decreases 8 - x,
    {
        match row[x] {
            None => {
                run = run + 1;
            },
            Some(p) => {
                if run > 0 {
                    push_char(s, (run + 48u8) as char);
                }
                push_char(s, p.fen());
                proof {
                    assert(old(s)@ + row_text_from(row@, 0, 0) =~= s@ + row_text_from(row@, x + 1, 0));
                }
                run = 0;
            },
        }
        x = x + 1;
    }
    if run > 0 {
        push_char(s, (run + 48u8) as char);
    }
    proof {
        assert(old(s)@ + row_text_from(row@, 0, 0) =~= s@);
    }
}

/// Whether the castling rights of `c` can be written in standard notation.
fn side_standard_exec(h: &HashableBoard, c: Color) -> (r: bool)
    ensures
        r == side_standard(*h, c),
{
    let home = crate::coord::home_rank(c);
    let row = h.board[home as usize];
    proof {
        assert(row@ == h.board@[home_rank_of(c)]@);
    }
    let rook = Some(ColoredPieceKind::new(c, PieceKind::Rook));
    let king = find_first_of(&row, ColoredPieceKind::new(c, PieceKind::King));
    let king_in_position = king == Some(4u8);
    let mut x: u8 = 0;
    while x < 8
        invariant
            0 <= x <= 8,
            row@ == h.board@[home_rank_of(c)]@,
            rook == Some(ColoredPieceKind { color: c, piece: PieceKind::Rook }),
            king_in_position == (first_of(row@, ColoredPieceKind { color: c, piece: PieceKind::King }, 0, 8)
                == Some(4int)),
            forall|f: int|
                0 <= f < x && #[trigger] h.castling_right.has(c, f) ==> king_in_position && ((f == 0
                    && row@[1] != rook && row@[2] != rook && row@[3] != rook) || (f == 7 && row@[5]
                    != rook && row@[6] != rook)),
        decreases 8 - x,
    {
        if h.castling_right.get(c, x) {
            let ok = king_in_position && ((x == 0 && row[1] != rook && row[2] != rook && row[3] != rook)
                || (x == 7 && row[5] != rook && row[6] != rook));
            if !ok {
                return false;
            }
        }
        x = x + 1;
    }
    true
}

/// The first file of the row that shows `pk`.
fn find_first_of(row: &[Option<ColoredPieceKind>; 8], pk: ColoredPieceKind) -> (r: Option<u8>)
    ensures
        match r {
            Some(f) => first_of(row@, pk, 0, 8) == Some(f as int),
            None => first_of(row@, pk, 0, 8) is None,
        },
{
    let mut x: u8 = 0;
    while x < 8
        invariant
            0 <= x <= 8,
            first_of(row@, pk, 0, 8) == first_of(row@, pk, x as int, 8),
        decreases 8 - x,
    {
        if row[x as usize] == Some(pk) {
            return Some(x);
        }
        x = x + 1;
    }
    None
}

impl Fen {
    /// The position's text, as `fen_text` says.
    pub fn to_text(&self) -> (s: String)
        requires
            self.board.wf(),
        ensures
            s@ == fen_text(*self),
    {
        let h = self.board;
        let mut s = String::new();
        let mut y: usize = 0;
        while y < 8
            invariant
                0 <= y <= 8,
                h == self.board,
                y == 0 ==> s@ == Seq::<char>::empty(),
                0 < y < 8 ==> board_text_from(grid_view(h.board), 0) == s@ + seq!['/'] + board_text_from(
                    grid_view(h.board),
                    y as int,
                ),
                y == 8 ==> s@ == board_text_from(grid_view(h.board), 0),
            decreases 8 - y,
        {
            let ghost before = s@;
            let ghost g = grid_view(h.board);
            if y > 0 {
                push_char(&mut s, '/');
            }
            push_row(&mut s, &h.board[y]);
            proof {
                assert(g[y as int] == h.board@[y as int]@);
                let r = row_text_from(g[y as int], 0, 0);
                if y == 0 {
                    assert(s@ =~= r);
                    assert(board_text_from(g, 0) == r + seq!['/'] + board_text_from(g, 1));
                } else if y < 7 {
                    assert(s@ =~= before + seq!['/'] + r);
                    assert(board_text_from(g, y as int) == r + seq!['/'] + board_text_from(g, y + 1));
                    assert(board_text_from(g, 0) =~= s@ + seq!['/'] + board_text_from(g, y + 1));
                } else {
                    assert(s@ =~= before + seq!['/'] + r);
                    assert(board_text_from(g, 7) == r);
                    assert(board_text_from(g, 0) =~= s@);
                }
            }
            y = y + 1;
        }
        push_char(&mut s, ' ');
        let ghost before_name = s@;
        match h.current_player {
            Color::White => push_char(&mut s, 'w'),
            Color::Black => push_char(&mut s, 'b'),
        }
        proof {
            assert(s@ =~= before_name + fen_color_text(h.current_player));
        }
        push_char(&mut s, ' ');
        let standard = side_standard_exec(&h, Color::White) && side_standard_exec(&h, Color::Black);
        let rights = if standard {
            h.castling_right.standard_fen_display().to_text()
        } else {
            h.castling_right.to_text()
        };
        let mut k: usize = 0;
        let ghost before_rights = s@;
        while k < rights.unicode_len()
            invariant
                0 <= k <= rights@.len(),
                s@ == before_rights + rights@.subrange(0, k as int),
            decreases rights@.len() - k,
        {
            push_char(&mut s, rights.as_str().get_char(k));
            k = k + 1;
            proof {
                assert(s@ =~= before_rights + rights@.subrange(0, k as int));
            }
        }
        push_char(&mut s, ' ');
        match h.en_passant_target {
            Some(t) => {
                push_char(&mut s, (t.x + 97u8) as char);
                push_char(&mut s, (8u8 - t.y + 48u8) as char);
            },
            None => push_char(&mut s, '-'),
        }
        push_char(&mut s, ' ');
        push_decimal(&mut s, self.half_move as u64);
        push_char(&mut s, ' ');
        push_decimal(&mut s, self.full_move as u64);
        proof {
            assert(s@ =~= fen_text(*self));
        }
        s
    }
}

} // verus!
