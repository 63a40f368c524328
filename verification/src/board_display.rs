//! Drawing a board as text for a terminal: coloured squares with piece
//! figurines, optional coordinates, and lines of information beside it.
use vstd::prelude::*;
use vstd::string::StringExecFns;
use crate::board::Board;
use crate::color::Color;
use crate::coord::{push_char, square, Coord};
use crate::fen::Fen;
use crate::hashable::HashableBoard;
use crate::fen::lemma_split_nonempty;
use crate::misc::{chars_of, split_chars, split_on, views};
use crate::piece::{figurine_of, ColoredPieceKind};
use crate::rules::piece_at;
use crate::simple_board::SimpleBoard;

verus! {

/// A board whose squares can be read.
pub trait IndexableBoard {
    /// Whether the squares can be read.
    spec fn readable(&self) -> bool;

    /// What stands on a square.
    spec fn piece_on(&self, position: Coord) -> Option<ColoredPieceKind>;

    /// What stands on a square.
    fn index(&self, position: Coord) -> (r: Option<ColoredPieceKind>)
        requires
            self.readable(),
            position.wf(),
        ensures
            r == self.piece_on(position),
    ;
}

impl IndexableBoard for Board {
    open spec fn readable(&self) -> bool {
        self.wf()
    }

    open spec fn piece_on(&self, position: Coord) -> Option<ColoredPieceKind> {
        piece_at(self.pieces@, position)
    }

    fn index(&self, position: Coord) -> (r: Option<ColoredPieceKind>) {
        Board::index(self, position)
    }
}

impl IndexableBoard for HashableBoard {
    open spec fn readable(&self) -> bool {
        true
    }

    open spec fn piece_on(&self, position: Coord) -> Option<ColoredPieceKind> {
        self.cell(position.x as int, position.y as int)
    }

    fn index(&self, position: Coord) -> (r: Option<ColoredPieceKind>) {
        self.board[position.y as usize][position.x as usize]
    }
}

impl IndexableBoard for Fen {
    open spec fn readable(&self) -> bool {
        true
    }

    open spec fn piece_on(&self, position: Coord) -> Option<ColoredPieceKind> {
        self.board.cell(position.x as int, position.y as int)
    }

    fn index(&self, position: Coord) -> (r: Option<ColoredPieceKind>) {
        self.board.board[position.y as usize][position.x as usize]
    }
}

impl IndexableBoard for SimpleBoard<ColoredPieceKind> {
    open spec fn readable(&self) -> bool {
        true
    }

    open spec fn piece_on(&self, position: Coord) -> Option<ColoredPieceKind> {
        Some(self.at(position.x as int, position.y as int))
    }

    fn index(&self, position: Coord) -> (r: Option<ColoredPieceKind>) {
        Some(*SimpleBoard::index(self, position))
    }
}

impl IndexableBoard for SimpleBoard<Option<ColoredPieceKind>> {
    open spec fn readable(&self) -> bool {
        true
    }

    open spec fn piece_on(&self, position: Coord) -> Option<ColoredPieceKind> {
        self.at(position.x as int, position.y as int)
    }

    fn index(&self, position: Coord) -> (r: Option<ColoredPieceKind>) {
        *SimpleBoard::index(self, position)
    }
}

/// A board drawn from one side, with squares to highlight and lines of
/// information to show beside it.
pub struct BoardDisplay<'board, 'highlighted, 'info, T> {
    pub board: &'board T,
    pub view: Color,
    pub show_coordinates: bool,
    pub highlighted: &'highlighted [Coord],
    pub info: &'info str,
}

/// What a board display shows, with its highlighted squares and its text as
/// values.
pub struct Picture<T> {
    pub board: T,
    pub view: Color,
    pub show_coordinates: bool,
    pub highlighted: Seq<Coord>,
    pub info: Seq<char>,
}

impl<'board, 'highlighted, 'info, T> BoardDisplay<'board, 'highlighted, 'info, T> {
    /// What the display shows.
    pub open spec fn picture(&self) -> Picture<T> {
        Picture {
            board: *self.board,
            view: self.view,
            show_coordinates: self.show_coordinates,
            highlighted: self.highlighted@,
            info: self.info@,
        }
    }
}

/// The lines of a text, as `str::lines` gives them: split at each `\n`, a
/// `\r` before it dropped, and no empty last line after a final `\n`.
pub open spec fn text_lines(s: Seq<char>) -> Seq<Seq<char>> {
    let pieces = split_on(s, '\n');
    let n = pieces.len() - 1;
    let ended = Seq::new(n as nat, |i: int| strip_cr(pieces[i]));
    if pieces[n].len() == 0 {
        ended
    } else {
        ended.push(pieces[n])
    }
}

/// A line without the `\r` that ends it, if any.
pub open spec fn strip_cr(l: Seq<char>) -> Seq<char> {
    if l.len() > 0 && l.last() == '\r' {
        l.drop_last()
    } else {
        l
    }
}

/// The colour code of a white square.
pub open spec fn white_code() -> Seq<char> {
    seq!['\x1b', '[', '3', '0', ';', '1', '0', '7', 'm']
}

/// The colour code of a black square.
pub open spec fn black_code() -> Seq<char> {
    seq!['\x1b', '[', '3', '0', ';', '4', '7', 'm']
}

/// The colour code of a highlighted square.
pub open spec fn highlighted_code() -> Seq<char> {
    seq!['\x1b', '[', '3', '0', ';', '1', '0', '3', 'm']
}

/// The code that ends a coloured square.
pub open spec fn reset_code() -> Seq<char> {
    seq!['\x1b', '[', '0', 'm']
}

/// A file or row index seen from a side: as it is for white, mirrored for black.
pub open spec fn seen_from(view: Color, i: int) -> int {
    if view == Color::White {
        i
    } else {
        7 - i
    }
}

impl<T: IndexableBoard> Picture<T> {
    /// The drawing of the square in row `r`, column `c` of the picture.
    pub open spec fn cell_text(&self, r: int, c: int) -> Seq<char> {
        let position = square(seen_from(self.view, c), seen_from(self.view, r));
        let code = if self.highlighted.contains(position) {
            highlighted_code()
        } else if position.shade() == Color::White {
            white_code()
        } else {
            black_code()
        };
        let figurine = match self.board.piece_on(position) {
            Some(p) => figurine_of(p),
            None => ' ',
        };
        code + seq![figurine, ' '] + reset_code()
    }

    /// The drawing of the first `n` squares of row `r` of the picture.
    pub open spec fn cells_text(&self, r: int, n: int) -> Seq<char>
        decreases n,
    {
        if n <= 0 {
            Seq::empty()
        } else {
            self.cells_text(r, n - 1) + self.cell_text(r, n - 1)
        }
    }

    /// Row `r` of the picture: its squares, the rank number when coordinates
    /// are shown, and line `r` of the information after a gap.
    pub open spec fn row_text(&self, r: int) -> Seq<char> {
        let lines = text_lines(self.info);
        let number = if self.show_coordinates {
            seq![('8' as int - seen_from(self.view, r)) as char]
        } else {
            Seq::empty()
        };
        let gap = if self.show_coordinates {
            seq![' ', ' ']
        } else {
            seq![' ']
        };
        let info = if r < lines.len() {
            gap + lines[r]
        } else {
            Seq::empty()
        };
        self.cells_text(r, 8) + number + info + seq!['\n']
    }

    /// The first `n` rows of the picture.
    pub open spec fn rows_text(&self, n: int) -> Seq<char>
        decreases n,
    {
        if n <= 0 {
            Seq::empty()
        } else {
            self.rows_text(n - 1) + self.row_text(n - 1)
        }
    }

    /// The line of file letters under the picture when coordinates are
    /// shown, with line 8 of the information after it.
    pub open spec fn files_text(&self) -> Seq<char> {
        let lines = text_lines(self.info);
        if self.show_coordinates {
            let letters = if self.view == Color::White {
                "a b c d e f g h"@
            } else {
                "h g f e d c b a"@
            };
            let info = if 8 < lines.len() {
                seq![' ', ' ', ' ', ' '] + lines[8]
            } else {
                Seq::empty()
            };
            letters + info + seq!['\n']
        } else {
            Seq::empty()
        }
    }

    /// The information lines from `k` on, each after the width of the
    /// picture.
    pub open spec fn rest_text(&self, k: int) -> Seq<char>
        decreases text_lines(self.info).len() - k,
    {
        let lines = text_lines(self.info);
        if k < 0 || k >= lines.len() {
            Seq::empty()
        } else {
            let spaces = Seq::new(if self.show_coordinates { 19 } else { 17 }, |i: int| ' ');
            spaces + lines[k] + seq!['\n'] + self.rest_text(k + 1)
        }
    }

    /// The whole picture.
    pub open spec fn display_text(&self) -> Seq<char> {
        let used = if self.show_coordinates {
            9int
        } else {
            8int
        };
        self.rows_text(8) + self.files_text() + self.rest_text(used)
    }
}

/// The first `n` characters.
fn copy_chars(v: &Vec<char>, n: usize) -> (r: Vec<char>)
    requires
        n <= v@.len(),
    ensures
        r@ == v@.subrange(0, n as int),
{
    let mut r: Vec<char> = Vec::new();
    let mut i: usize = 0;
    while i < n
        invariant
            0 <= i <= n,
            n <= v@.len(),
            r@ == v@.subrange(0, i as int),
        decreases n - i,
    {
        r.push(v[i]);
        i = i + 1;
        proof {
            assert(r@ =~= v@.subrange(0, i as int));
        }
    }
    r
}

/// Appends the characters.
fn push_chars(s: &mut String, v: &Vec<char>)
    ensures
        final(s)@ == old(s)@ + v@,
{
    let mut i: usize = 0;
    while i < v.len()
        invariant
            0 <= i <= v@.len(),
            s@ == old(s)@ + v@.subrange(0, i as int),
        decreases v@.len() - i,
    {
        push_char(s, v[i]);
        i = i + 1;
        proof {
            assert(s@ =~= old(s)@ + v@.subrange(0, i as int));
        }
    }
    proof {
        assert(v@.subrange(0, v@.len() as int) =~= v@);
    }
}

/// The lines of a text, as `text_lines` says.
fn info_lines(s: &str) -> (r: Vec<Vec<char>>)
    ensures
        views(r@) == text_lines(s@),
{
    let cs = chars_of(s);
    let pieces = split_chars(&cs, '\n');
    proof {
        lemma_split_nonempty(s@, '\n');
    }
    let ghost sp = split_on(s@, '\n');
    let n = pieces.len() - 1;
    let mut r: Vec<Vec<char>> = Vec::new();
    let mut i: usize = 0;
    while i < n
        invariant
            0 <= i <= n,
            n == pieces@.len() - 1,
            views(pieces@) == sp,
            r@.len() == i,
            views(r@) == Seq::new(i as nat, |j: int| strip_cr(sp[j])),
        decreases n - i,
    {
        let piece = &pieces[i];
        proof {
            assert(piece@ == sp[i as int]);
        }
        let k = piece.len();
        let line = if k > 0 && piece[k - 1] == '\r' {
            copy_chars(piece, k - 1)
        } else {
            copy_chars(piece, k)
        };
        proof {
            assert(line@ =~= strip_cr(sp[i as int]));
        }
        let ghost prev = r@;
        r.push(line);
        i = i + 1;
        proof {
            assert forall|j: int| 0 <= j < i implies #[trigger] views(r@)[j] == strip_cr(sp[j]) by {
                if j < i - 1 {
                    assert(r@[j] == prev[j]);
                    assert(views(prev)[j] == prev[j]@);
                }
            }
            assert(views(r@) =~= Seq::new(i as nat, |j: int| strip_cr(sp[j])));
        }
    }
    let last = &pieces[n];
    proof {
        assert(last@ == sp[n as int]);
    }
    if last.len() > 0 {
        let ghost prev = r@;
        r.push(copy_chars(last, last.len()));
        proof {
            assert forall|j: int| 0 <= j < n implies #[trigger] views(r@)[j] == views(prev)[j] by {
                assert(r@[j] == prev[j]);
            }
            assert(views(r@)[n as int] =~= sp[n as int]);
            assert(views(r@) =~= text_lines(s@));
        }
    } else {
        proof {
            assert(views(r@) =~= text_lines(s@));
        }
    }
    r
}

/// The figurine of what stands on a square, or a space.
fn figurine_text(p: Option<ColoredPieceKind>) -> (c: char)
    ensures
        c == match p {
            Some(q) => figurine_of(q),
            None => ' ',
        },
{
    match p {
        Some(q) => q.figurine(),
        None => ' ',
    }
}

impl<'board, 'highlighted, 'info, T: IndexableBoard> BoardDisplay<'board, 'highlighted, 'info, T> {
    /// Whether a square is highlighted.
    fn is_highlighted(&self, position: Coord) -> (r: bool)
        ensures
            r == self.highlighted@.contains(position),
    {
        let mut i: usize = 0;
        while i < self.highlighted.len()
            invariant
                0 <= i <= self.highlighted@.len(),
                forall|j: int| 0 <= j < i ==> self.highlighted@[j] != position,
            decreases self.highlighted@.len() - i,
        {
            if self.highlighted[i] == position {
                proof {
                    assert(self.highlighted@[i as int] == position);
                }
                return true;
            }
            i = i + 1;
        }
        false
    }

    /// Appends row `r` of the picture, as `row_text` says.
    fn push_row(&self, s: &mut String, r: u8, lines: &Vec<Vec<char>>)
        requires
            r < 8,
            self.board.readable(),
            views(lines@) == text_lines(self.info@),
        ensures
            final(s)@ == old(s)@ + self.picture().row_text(r as int),
    {
        let ghost tl = text_lines(self.info@);
        let y = match self.view {
            Color::White => r,
            Color::Black => 7 - r,
        };
        let ghost before = old(s)@;
        let mut c: u8 = 0;
        while c < 8
            invariant
                0 <= c <= 8,
                0 <= r < 8,
                y == seen_from(self.view, r as int),
                self.board.readable(),
                s@ == before + self.picture().cells_text(r as int, c as int),
            decreases 8 - c,
        {
            let x = match self.view {
                Color::White => c,
                Color::Black => 7 - c,
            };
            let position = Coord { x, y };
            proof {
                assert(position == square(seen_from(self.view, c as int), seen_from(self.view, r as int)));
            }
            if self.is_highlighted(position) {
                s.append("\x1b[30;103m");
                proof {
                    reveal_strlit("\x1b[30;103m");
                }
            } else if position.color() == Color::White {
                s.append("\x1b[30;107m");
                proof {
                    reveal_strlit("\x1b[30;107m");
                }
            } else {
                s.append("\x1b[30;47m");
                proof {
                    reveal_strlit("\x1b[30;47m");
                }
            }
            push_char(s, figurine_text(self.board.index(position)));
            push_char(s, ' ');
            s.append("\x1b[0m");
            proof {
                reveal_strlit("\x1b[0m");
                assert(s@ =~= before + self.picture().cells_text(r as int, c + 1));
            }
            c = c + 1;
        }
        if self.show_coordinates {
            push_char(s, ((56u8 - y) as char));
        }
        if (r as usize) < lines.len() {
            if self.show_coordinates {
                s.append("  ");
                proof {
                    reveal_strlit("  ");
                }
            } else {
                s.append(" ");
                proof {
                    reveal_strlit(" ");
                }
            }
            push_chars(s, &lines[r as usize]);
            proof {
                assert(lines@[r as int]@ == tl[r as int]);
            }
        }
        push_char(s, '\n');
        proof {
            assert(s@ =~= old(s)@ + self.picture().row_text(r as int));
        }
    }

    /// The picture, as `display_text` says.
    pub fn to_text(&self) -> (s: String)
        requires
            self.board.readable(),
        ensures
            s@ == self.picture().display_text(),
    {
        let lines = info_lines(self.info);
        let ghost tl = text_lines(self.info@);
        let mut s = String::new();
        proof {
            reveal_strlit("");
            assert(s@ =~= self.picture().rows_text(0));
        }
        let mut r: u8 = 0;
        while r < 8
            invariant
                0 <= r <= 8,
                self.board.readable(),
                views(lines@) == tl,
                tl == text_lines(self.info@),
                s@ == self.picture().rows_text(r as int),
            decreases 8 - r,
        {
            self.push_row(&mut s, r, &lines);
            proof {
                assert(s@ =~= self.picture().rows_text(r + 1));
            }
            r = r + 1;
        }
        let ghost rows = s@;
        if self.show_coordinates {
            match self.view {
                Color::White => s.append("a b c d e f g h"),
                Color::Black => s.append("h g f e d c b a"),
            }
            if 8 < lines.len() {
                s.append("    ");
                proof {
                    reveal_strlit("    ");
                    assert(lines@[8]@ == tl[8]);
                }
                push_chars(&mut s, &lines[8]);
            }
            push_char(&mut s, '\n');
        }
        proof {
            assert(s@ =~= rows + self.picture().files_text());
        }
        let mut k: usize = if self.show_coordinates {
            9
        } else {
            8
        };
        let ghost used = k as int;
        while k < lines.len()
            invariant
                views(lines@) == tl,
                tl == text_lines(self.info@),
                used <= k,
                k >= 8,
                s@ + self.picture().rest_text(k as int) == rows + self.picture().files_text() + self.picture().rest_text(used),
            decreases lines@.len() - k,
        {
            let ghost here = s@;
            if self.show_coordinates {
                s.append("                   ");
                proof {
                    reveal_strlit("                   ");
                }
            } else {
                s.append("                 ");
                proof {
                    reveal_strlit("                 ");
                }
            }
            push_chars(&mut s, &lines[k]);
            push_char(&mut s, '\n');
            proof {
                assert(lines@[k as int]@ == tl[k as int]);
                let spaces = Seq::new(if self.show_coordinates { 19 } else { 17 }, |i: int| ' ');
                assert(s@ =~= here + spaces + tl[k as int] + seq!['\n']);
                assert(self.picture().rest_text(k as int) == spaces + tl[k as int] + seq!['\n'] + self.picture().rest_text(k + 1));
                assert(s@ + self.picture().rest_text(k + 1) =~= here + self.picture().rest_text(k as int));
            }
            k = k + 1;
        }
        s
    }
}

} // verus!
