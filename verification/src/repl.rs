//! The interactive play mode: its commands, and what each does to the game
//! shown on the terminal.
use vstd::prelude::*;
use vstd::string::StringExecFns;
use crate::board::Board;
use crate::board_display::{BoardDisplay, Picture};
use crate::color::Color;
use crate::coord::{coord_text, Coord, parse_coord_spec};
use crate::decimal::{decimal_text, parse_u32, parse_unsigned, push_decimal, ParseIntError};
use crate::describe::{fen_error_text, int_error_text, invalid_board_text, lan_error_text};
use crate::fen::{color_text, fen_has_fields, fen_text, parse_fen, Fen, ParseFenError};
use crate::hashable::HashableBoard;
use crate::lan::{lan_text, lemma_listed_readable, listed, parse_lan, play, playable, texts_of, Lan, ParseLanError};
use crate::rules::{dead_position, has_legal_move, in_check, legal};
use crate::misc::{chars_of, str_eq, strip_prefix_token, token_prefix, trim, trim_ws};
use crate::piece::{chess960_rank, standard_rank};
use crate::rules::piece_at;
use crate::setup::{built_from_grid, starting_board, InvalidBoard};
use crate::uci::input::after_token;

verus! {

/// A command of the play mode.
#[derive(Debug, Clone, Copy, PartialEq, Eq, Hash)]
pub enum ReplInput {
    Help,
    Flip,
    Restart,
    StartChess960,
    Quit,
    Import(Fen),
    ExportFen,
    Coord(Coord),
    Move(Lan),
    Bot(u32),
}

/// Why a line is not a command of the play mode.
#[derive(Debug, Clone, Copy, PartialEq, Eq)]
pub enum ParseReplError {
    Fen(ParseFenError),
    Move(ParseLanError),
    Int(ParseIntError),
}

/// What reading a command gives: the words `help`, `flip`, `restart`,
/// `start chess960`, `quit` and `fen`; `import` with a FEN; `bot` with a
/// depth; a square; otherwise a move.
pub open spec fn repl_input_result(s: Seq<char>, r: Result<ReplInput, ParseReplError>) -> bool {
    if s == "help"@ {
        r == Ok::<ReplInput, ParseReplError>(ReplInput::Help)
    } else if s == "flip"@ {
        r == Ok::<ReplInput, ParseReplError>(ReplInput::Flip)
    } else if s == "restart"@ {
        r == Ok::<ReplInput, ParseReplError>(ReplInput::Restart)
    } else if s == "start chess960"@ {
        r == Ok::<ReplInput, ParseReplError>(ReplInput::StartChess960)
    } else if s == "quit"@ {
        r == Ok::<ReplInput, ParseReplError>(ReplInput::Quit)
    } else if s == "fen"@ {
        r == Ok::<ReplInput, ParseReplError>(ReplInput::ExportFen)
    } else if token_prefix(s, "import"@) {
        match parse_fen(after_token(s, "import"@)) {
            Ok(fields) => r matches Ok(ReplInput::Import(f)) && fen_has_fields(f, fields) && f.board.wf(),
            Err(e) => r == Err::<ReplInput, ParseReplError>(ParseReplError::Fen(e)),
        }
    } else if token_prefix(s, "bot"@) {
        match parse_unsigned(after_token(s, "bot"@), u32::MAX as int) {
            Ok(v) => r == Ok::<ReplInput, ParseReplError>(ReplInput::Bot(v as u32)),
            Err(e) => r == Err::<ReplInput, ParseReplError>(ParseReplError::Int(e)),
        }
    } else if parse_coord_spec(s) is Ok {
        r == Ok::<ReplInput, ParseReplError>(ReplInput::Coord(parse_coord_spec(s)->Ok_0))
    } else {
        match parse_lan(s) {
            Ok(l) => r == Ok::<ReplInput, ParseReplError>(ReplInput::Move(l)),
            Err(e) => r == Err::<ReplInput, ParseReplError>(ParseReplError::Move(e)),
        }
    }
}

/// The text of an error in reading a command.
pub open spec fn repl_error_text(e: ParseReplError) -> Seq<char> {
    match e {
        ParseReplError::Fen(f) => fen_error_text(f),
        ParseReplError::Move(m) => lan_error_text(m),
        ParseReplError::Int(i) => int_error_text(i),
    }
}

impl ParseReplError {
    pub fn to_text(&self) -> (s: String)
        ensures
            s@ == repl_error_text(*self),
    {
        match self {
            ParseReplError::Fen(f) => f.to_text(),
            ParseReplError::Move(m) => m.to_text(),
            ParseReplError::Int(i) => i.to_text(),
        }
    }
}

/// The text of a command.
pub open spec fn repl_input_text(i: ReplInput) -> Seq<char> {
    match i {
        ReplInput::Help => "help"@,
        ReplInput::Flip => "flip"@,
        ReplInput::Restart => "restart"@,
        ReplInput::StartChess960 => "start chess960"@,
        ReplInput::Quit => "quit"@,
        ReplInput::Import(f) => "import "@ + fen_text(f),
        ReplInput::ExportFen => "fen"@,
        ReplInput::Coord(c) => coord_text(c),
        ReplInput::Move(l) => lan_text(l),
        ReplInput::Bot(d) => "bot "@ + decimal_text(d as nat),
    }
}

/// The squares and boards of a command are on the board.
pub open spec fn repl_input_wf(i: ReplInput) -> bool {
    match i {
        ReplInput::Import(f) => f.board.wf(),
        ReplInput::Coord(c) => c.wf(),
        ReplInput::Move(l) => l.wf(),
        _ => true,
    }
}

impl ReplInput {
    /// Reads a command, as `repl_input_result` says.
    pub fn parse(s: &str) -> (r: Result<ReplInput, ParseReplError>)
        ensures
            repl_input_result(s@, r),
            r matches Ok(i) ==> repl_input_wf(i),
    {
        if str_eq(s, "help") {
            return Ok(ReplInput::Help);
        }
        if str_eq(s, "flip") {
            return Ok(ReplInput::Flip);
        }
        if str_eq(s, "restart") {
            return Ok(ReplInput::Restart);
        }
        if str_eq(s, "start chess960") {
            return Ok(ReplInput::StartChess960);
        }
        if str_eq(s, "quit") {
            return Ok(ReplInput::Quit);
        }
        if str_eq(s, "fen") {
            return Ok(ReplInput::ExportFen);
        }
        if let Some(rest) = strip_prefix_token(s, "import") {
            return match Fen::parse(rest) {
                Ok(f) => Ok(ReplInput::Import(f)),
                Err(e) => Err(ParseReplError::Fen(e)),
            };
        }
        if let Some(rest) = strip_prefix_token(s, "bot") {
            let cs = chars_of(rest);
            return match parse_u32(&cs) {
                Ok(v) => Ok(ReplInput::Bot(v)),
                Err(e) => Err(ParseReplError::Int(e)),
            };
        }
        if let Ok(c) = Coord::parse(s) {
            return Ok(ReplInput::Coord(c));
        }
        match Lan::parse(s) {
            Ok(l) => Ok(ReplInput::Move(l)),
            Err(e) => Err(ParseReplError::Move(e)),
        }
    }

    /// The command's text, as `repl_input_text` says.
    pub fn to_text(&self) -> (s: String)
        requires
            repl_input_wf(*self),
        ensures
            s@ == repl_input_text(*self),
    {
        match self {
            ReplInput::Help => String::from_str("help"),
            ReplInput::Flip => String::from_str("flip"),
            ReplInput::Restart => String::from_str("restart"),
            ReplInput::StartChess960 => String::from_str("start chess960"),
            ReplInput::Quit => String::from_str("quit"),
            ReplInput::Import(f) => {
                let mut s = String::from_str("import ");
                let t = f.to_text();
                s.append(t.as_str());
                s
            },
            ReplInput::ExportFen => String::from_str("fen"),
            ReplInput::Coord(c) => c.to_text(),
            ReplInput::Move(l) => l.to_text(),
            ReplInput::Bot(d) => {
                let mut s = String::from_str("bot ");
                push_decimal(&mut s, *d as u64);
                s
            },
        }
    }
}

/// The play mode between two screens: the game, the text beside the board,
/// the highlighted squares, the moves that can be played (by text), whether
/// the text must be worked out again, the side the board is seen from, and
/// whether the hint about `help` is still to be shown.
#[derive(Debug, Clone)]
pub struct Repl {
    pub board: Board,
    pub info: String,
    pub highlighted: Vec<Coord>,
    pub valid_moves: Vec<Lan>,
    pub update: bool,
    pub view: Color,
    pub first_time: bool,
}

/// What a line of the play mode gives.
#[derive(Debug, Clone)]
pub enum ReplOutcome {
    /// Lines for the output; the board is drawn again.
    Shown(Vec<String>),
    /// Lines for the error output; another line is asked for.
    Refused(Vec<String>),
    Quit,
    /// A bot is to play a move after a search of this depth.
    Bot(u32),
}

/// What a line gives, with its lines as characters.
pub enum ReplOutcomeView {
    Shown(Seq<Seq<char>>),
    Refused(Seq<Seq<char>>),
    Quit,
    Bot(u32),
}

/// The lines as characters.
pub open spec fn text_views(v: Seq<String>) -> Seq<Seq<char>> {
    Seq::new(v.len(), |i: int| v[i]@)
}

/// What a line gives, with its lines as characters.
pub open spec fn outcome_view(o: ReplOutcome) -> ReplOutcomeView {
    match o {
        ReplOutcome::Shown(v) => ReplOutcomeView::Shown(text_views(v@)),
        ReplOutcome::Refused(v) => ReplOutcomeView::Refused(text_views(v@)),
        ReplOutcome::Quit => ReplOutcomeView::Quit,
        ReplOutcome::Bot(d) => ReplOutcomeView::Bot(d),
    }
}

/// `l` is a text by which a move that `valid_moves` lists may be given.
pub open spec fn move_text(b: Board, l: Lan) -> bool {
    exists|m: crate::board::Move| #[trigger] listed(b, m) && texts_of(b, m).contains(l)
}

/// The line telling the state of the game: whose turn it is, or how it ended.
pub open spec fn status_text(b: Board) -> Seq<char> {
    if !dead_position(b.pieces@) && has_legal_move(b) {
        color_text(b.current_player) + " plays\n"@
    } else if !dead_position(b.pieces@) && in_check(b.pieces@, b.current_player) {
        color_text(b.current_player.other()) + " wins\n"@
    } else {
        "draw\n"@
    }
}

/// The hint shown on the first screen.
pub open spec fn hint_text() -> Seq<char> {
    "type `help` for instructions\n"@
}

/// The help of the play mode, one command a line.
pub open spec fn help_lines() -> Seq<Seq<char>> {
    seq![
        "flip           - flip the board"@,
        "restart        - reset to starting position"@,
        "start chess960 - start a new chess960 game"@,
        "quit           - quit the game"@,
        "import <fen>   - import a position"@,
        "fen            - export the position as fen"@,
        "e2             - view valid moves"@,
        "e2e4           - play the move"@,
        "e7e8q          - move and promote"@,
        "e1g1 (or e1h1) - perform castling"@,
        "bot <depth>    - let a bot play"@,
    ]
}

/// The grid `h` shows the board `b`.
pub open spec fn grid_shows(h: HashableBoard, b: Board) -> bool {
    &&& forall|q: Coord| q.wf() ==> #[trigger] h.cell(q.x as int, q.y as int) == piece_at(b.pieces@, q)
    &&& h.current_player == b.current_player
    &&& h.castling_right == b.castling_right
    &&& h.en_passant_target == b.en_passant_target
}

/// What a command does to the play mode (`t` after `s`) and what it gives.
pub open spec fn repl_handled(s: Repl, input: ReplInput, id: int, t: Repl, o: ReplOutcomeView) -> bool {
    match input {
        ReplInput::Help => t == s && o == ReplOutcomeView::Shown(help_lines()),
        ReplInput::Flip => t == Repl { view: s.view.other(), ..s } && o == ReplOutcomeView::Shown(Seq::empty()),
        ReplInput::Restart => t == Repl { board: t.board, highlighted: t.highlighted, update: true, ..s }
            && t.board.wf() && starting_board(t.board, standard_rank()) && t.highlighted@.len() == 0 && o
            == ReplOutcomeView::Shown(Seq::empty()),
        ReplInput::StartChess960 => t == Repl { board: t.board, highlighted: t.highlighted, update: true, ..s }
            && t.board.wf() && starting_board(t.board, chess960_rank(id)) && t.highlighted@.len() == 0 && o
            == ReplOutcomeView::Shown(Seq::empty()),
        ReplInput::Quit => t == s && o == ReplOutcomeView::Quit,
        ReplInput::Import(f) => exists|r0: Result<Board, InvalidBoard>|
            #[trigger] built_from_grid(f.board, r0) && match r0 {
                Ok(b) => t == Repl { board: b, highlighted: t.highlighted, update: true, ..s }
                    && t.highlighted@.len() == 0 && o == ReplOutcomeView::Shown(Seq::empty()),
                Err(e) => t == s && o == ReplOutcomeView::Refused(seq!["Error: "@ + invalid_board_text(e)]),
            },
        ReplInput::ExportFen => t == s && exists|h: HashableBoard|
            #[trigger] grid_shows(h, s.board) && o == ReplOutcomeView::Shown(
                seq![fen_text(Fen { board: h, half_move: 0, full_move: 1 })],
            ),
        ReplInput::Coord(p) => match piece_at(s.board.pieces@, p) {
            Some(pc) => if pc.color != s.board.current_player {
                t == s && o == ReplOutcomeView::Refused(
                    seq!["Error: It is "@ + color_text(s.board.current_player) + "'s turn"@],
                )
            } else {
                &&& t == Repl { highlighted: t.highlighted, ..s }
                &&& forall|c: Coord|
                    #[trigger] t.highlighted@.contains(c) <==> exists|l: Lan|
                        #[trigger] s.valid_moves@.contains(l) && l.origin == p && l.destination == c
                &&& o == ReplOutcomeView::Shown(Seq::empty())
            },
            None => t == s && o == ReplOutcomeView::Refused(seq!["Error: No piece found on "@ + coord_text(p)]),
        },
        ReplInput::Move(l) => if s.valid_moves@.contains(l) && playable(s.board, l) {
            &&& t == Repl { board: play(s.board, l), highlighted: t.highlighted, update: true, ..s }
            &&& t.highlighted@ == seq![l.origin, l.destination]
            &&& o == ReplOutcomeView::Shown(Seq::empty())
        } else {
            t == s && o == ReplOutcomeView::Refused(seq!["Error: "@ + lan_text(l) + " is an invalid move"@])
        },
        ReplInput::Bot(d) => t == s && o == ReplOutcomeView::Bot(d),
    }
}

/// What a line does: the command read from it, with `id` the Chess960
/// position a new Chess960 game starts from; or the error and a pointer to
/// `help`.
pub open spec fn repl_received(s: Repl, line: Seq<char>, id: int, t: Repl, o: ReplOutcomeView) -> bool {
    exists|r: Result<ReplInput, ParseReplError>|
        #[trigger] repl_input_result(trim_ws(line), r) && match r {
            Ok(input) => repl_handled(s, input, id, t, o),
            Err(e) => t == s && o == ReplOutcomeView::Refused(
                seq!["Error: "@ + repl_error_text(e), "for available command, enter `help`"@],
            ),
        }
}

impl Repl {
    /// The game is sound.
    pub open spec fn wf(self) -> bool {
        self.board.wf()
    }

    /// What the screen shows.
    pub open spec fn picture(self) -> Picture<Board> {
        Picture {
            board: self.board,
            view: self.view,
            show_coordinates: true,
            highlighted: self.highlighted@,
            info: self.info@,
        }
    }

    /// The play mode on the standard starting position, seen by white.
    pub fn new() -> (r: Repl)
        ensures
            r.wf(),
            starting_board(r.board, standard_rank()),
            r.info@.len() == 0,
            r.highlighted@.len() == 0,
            r.valid_moves@.len() == 0,
            r.update,
            r.view == Color::White,
            r.first_time,
    {
        proof {
            reveal_strlit("");
        }
        Repl {
            board: Board::starting_position(),
            info: String::new(),
            highlighted: Vec::new(),
            valid_moves: Vec::new(),
            update: true,
            view: Color::White,
            first_time: true,
        }
    }

    /// The texts of the moves that `valid_moves` lists, and the status line.
    fn survey(&self) -> (r: (Vec<Lan>, String))
        requires
            self.wf(),
        ensures
            forall|l: Lan| r.0@.contains(l) <==> move_text(self.board, l),
            r.1@ == status_text(self.board),
    {
        match self.board.valid_moves() {
            Ok(moves) => {
                let mut texts: Vec<Lan> = Vec::new();
                let mut i: usize = 0;
                while i < moves.len()
                    invariant
                        0 <= i <= moves@.len(),
                        self.wf(),
                        !dead_position(self.board.pieces@),
                        forall|m: crate::board::Move| moves@.contains(m) <==> legal(self.board, m),
                        forall|l: Lan|
                            texts@.contains(l) <==> exists|j: int|
                                0 <= j < i && #[trigger] texts_of(self.board, moves@[j]).contains(l),
                    decreases moves@.len() - i,
                {
                    let m = moves[i];
                    proof {
                        assert(moves@.contains(moves@[i as int]));
                        lemma_listed_readable(self.board, m);
                    }
                    let more = m.as_lan_iter(&self.board);
                    let ghost before = texts@;
                    let mut k: usize = 0;
                    while k < more.len()
                        invariant
                            0 <= k <= more@.len(),
                            texts@ == before + more@.subrange(0, k as int),
                        decreases more@.len() - k,
                    {
                        texts.push(more[k]);
                        k = k + 1;
                        proof {
                            assert(texts@ =~= before + more@.subrange(0, k as int));
                        }
                    }
                    proof {
                        assert(more@.subrange(0, more@.len() as int) =~= more@);
                        assert forall|l: Lan|
                            texts@.contains(l) <==> exists|j: int|
                                0 <= j < i + 1 && #[trigger] texts_of(self.board, moves@[j]).contains(l) by {
                            if texts@.contains(l) {
                                let x = choose|x: int| 0 <= x < texts@.len() && texts@[x] == l;
                                if x < before.len() {
                                    assert(before[x] == l);
                                    assert(before.contains(l));
                                } else {
                                    assert(more@[x - before.len()] == l);
                                    assert(texts_of(self.board, moves@[i as int]).contains(l));
                                }
                            }
                            if exists|j: int| 0 <= j < i + 1 && #[trigger] texts_of(self.board, moves@[j]).contains(l) {
                                let j = choose|j: int| 0 <= j < i + 1 && #[trigger] texts_of(self.board, moves@[j]).contains(l);
                                if j < i {
                                    assert(before.contains(l));
                                    let x = choose|x: int| 0 <= x < before.len() && before[x] == l;
                                    assert(texts@[x] == l);
                                } else {
                                    let x = choose|x: int| 0 <= x < more@.len() && more@[x] == l;
                                    assert(texts@[before.len() + x] == l);
                                }
                            }
                        }
                    }
                    i = i + 1;
                }
                proof {
                    assert(moves@.contains(moves@[0]));
                    assert(has_legal_move(self.board));
                    assert forall|l: Lan| texts@.contains(l) <==> move_text(self.board, l) by {
                        if texts@.contains(l) {
                            let j = choose|j: int| 0 <= j < moves@.len() && #[trigger] texts_of(self.board, moves@[j]).contains(l);
                            assert(moves@.contains(moves@[j]));
                            assert(listed(self.board, moves@[j]));
                        }
                        if move_text(self.board, l) {
                            let m = choose|m: crate::board::Move| #[trigger] listed(self.board, m) && texts_of(self.board, m).contains(l);
                            assert(moves@.contains(m));
                            let j = choose|j: int| 0 <= j < moves@.len() && moves@[j] == m;
                            assert(texts_of(self.board, moves@[j]).contains(l));
                        }
                    }
                }
                let mut info = String::from_str(self.board.current_player.name());
                info.append(" plays\n");
                proof {
                    reveal_strlit("white");
                    reveal_strlit("black");
                }
                (texts, info)
            },
            Err(end) => {
                let mut info = end.to_text();
                info.append("\n");
                proof {
                    reveal_strlit("white wins");
                    reveal_strlit("black wins");
                    reveal_strlit("draw");
                    reveal_strlit("\n");
                    reveal_strlit(" wins\n");
                    reveal_strlit("draw\n");
                    reveal_strlit("white");
                    reveal_strlit("black");
                    assert forall|l: Lan| !move_text(self.board, l) by {
                        if move_text(self.board, l) {
                            let m = choose|m: crate::board::Move| #[trigger] listed(self.board, m) && texts_of(self.board, m).contains(l);
                            assert(legal(self.board, m));
                        }
                    }
                    assert(info@ =~= status_text(self.board));
                }
                (Vec::new(), info)
            },
        }
    }

    /// Works out the text beside the board when it is due, adds the hint on
    /// the first screen, and draws the screen.
    pub fn screen(&mut self) -> (s: String)
        requires
            old(self).wf(),
        ensures
            final(self).wf(),
            final(self).board == old(self).board,
            final(self).view == old(self).view,
            final(self).highlighted == old(self).highlighted,
            !final(self).update,
            !final(self).first_time,
            old(self).update ==> forall|l: Lan| final(self).valid_moves@.contains(l) <==> move_text(old(self).board, l),
            !old(self).update ==> final(self).valid_moves == old(self).valid_moves,
            final(self).info@ == (if old(self).update {
                status_text(old(self).board)
            } else {
                old(self).info@
            }) + (if old(self).first_time {
                hint_text()
            } else {
                Seq::empty()
            }),
            s@ == final(self).picture().display_text(),
    {
        if self.update {
            let (texts, info) = self.survey();
            self.valid_moves = texts;
            self.info = info;
        }
        let ghost base = self.info@;
        if self.first_time {
            self.info.append("type `help` for instructions\n");
            self.first_time = false;
        } else {
            proof {
                reveal_strlit("");
                assert(self.info@ =~= base + Seq::<char>::empty());
            }
        }
        self.update = false;
        let display = BoardDisplay {
            board: &self.board,
            view: self.view,
            show_coordinates: true,
            highlighted: self.highlighted.as_slice(),
            info: self.info.as_str(),
        };
        proof {
            assert(display.picture() == self.picture());
        }
        display.to_text()
    }
}

/// A list of one line.
fn one_line(line: String) -> (v: Vec<String>)
    ensures
        text_views(v@) == seq![line@],
{
    let mut v: Vec<String> = Vec::new();
    v.push(line);
    proof {
        assert(text_views(v@) =~= seq![line@]);
    }
    v
}

/// No lines.
fn no_lines() -> (v: Vec<String>)
    ensures
        text_views(v@) == Seq::<Seq<char>>::empty(),
{
    let v: Vec<String> = Vec::new();
    proof {
        assert(text_views(v@) =~= Seq::<Seq<char>>::empty());
    }
    v
}

/// The help of the play mode.
fn help() -> (v: Vec<String>)
    ensures
        text_views(v@) == help_lines(),
{
    let mut v: Vec<String> = Vec::new();
    v.push(String::from_str("flip           - flip the board"));
    v.push(String::from_str("restart        - reset to starting position"));
    v.push(String::from_str("start chess960 - start a new chess960 game"));
    v.push(String::from_str("quit           - quit the game"));
    v.push(String::from_str("import <fen>   - import a position"));
    v.push(String::from_str("fen            - export the position as fen"));
    v.push(String::from_str("e2             - view valid moves"));
    v.push(String::from_str("e2e4           - play the move"));
    v.push(String::from_str("e7e8q          - move and promote"));
    v.push(String::from_str("e1g1 (or e1h1) - perform castling"));
    v.push(String::from_str("bot <depth>    - let a bot play"));
    proof {
        assert(text_views(v@) =~= help_lines());
    }
    v
}

impl Repl {
    /// Carries out a command, as `repl_handled` says.
    pub fn handle(&mut self, input: ReplInput, chess960_id: u16) -> (o: ReplOutcome)
        requires
            old(self).wf(),
            repl_input_wf(input),
            chess960_id < 960,
        ensures
            final(self).wf(),
            repl_handled(*old(self), input, chess960_id as int, *final(self), outcome_view(o)),
    {
        let ghost s0 = *self;
        match input {
            ReplInput::Help => ReplOutcome::Shown(help()),
            ReplInput::Flip => {
                self.view = self.view.opposite();
                ReplOutcome::Shown(no_lines())
            },
            ReplInput::Restart => {
                self.board = Board::starting_position();
                self.update = true;
                self.highlighted = Vec::new();
                ReplOutcome::Shown(no_lines())
            },
            ReplInput::StartChess960 => {
                self.board = Board::chess960(chess960_id);
                self.update = true;
                self.highlighted = Vec::new();
                ReplOutcome::Shown(no_lines())
            },
            ReplInput::Quit => ReplOutcome::Quit,
            ReplInput::Import(fen) => {
                let r0 = Board::try_from_hashable(fen.board);
                proof {
                    assert(built_from_grid(fen.board, r0));
                }
                match r0 {
                    Ok(board) => {
                        self.board = board;
                        self.update = true;
                        self.highlighted = Vec::new();
                        ReplOutcome::Shown(no_lines())
                    },
                    Err(e) => {
                        let mut m = String::from_str("Error: ");
                        let t = e.to_text();
                        m.append(t.as_str());
                        ReplOutcome::Refused(one_line(m))
                    },
                }
            },
            ReplInput::ExportFen => {
                let h = self.board.as_hashable();
                let fen = Fen { board: h, half_move: 0, full_move: 1 };
                proof {
                    assert(grid_shows(h, s0.board));
                }
                ReplOutcome::Shown(one_line(fen.to_text()))
            },
            ReplInput::Coord(position) => {
                match self.board.index(position) {
                    Some(piece) => {
                        if piece.color != self.board.current_player {
                            let mut m = String::from_str("Error: It is ");
                            m.append(self.board.current_player.name());
                            m.append("'s turn");
                            proof {
                                reveal_strlit("white");
                                reveal_strlit("black");
                                assert(m@ =~= "Error: It is "@ + color_text(s0.board.current_player) + "'s turn"@);
                            }
                            return ReplOutcome::Refused(one_line(m));
                        }
                        let mut targets: Vec<Coord> = Vec::new();
                        let mut i: usize = 0;
                        while i < self.valid_moves.len()
                            invariant
                                0 <= i <= self.valid_moves@.len(),
                                forall|c: Coord|
                                    #[trigger] targets@.contains(c) <==> exists|j: int|
                                        0 <= j < i && self.valid_moves@[j].origin == position
                                            && self.valid_moves@[j].destination == c,
                            decreases self.valid_moves@.len() - i,
                        {
                            let l = self.valid_moves[i];
                            let ghost before = targets@;
                            if l.origin == position {
                                targets.push(l.destination);
                            }
                            proof {
                                assert forall|c: Coord|
                                    #[trigger] targets@.contains(c) <==> exists|j: int|
                                        0 <= j < i + 1 && self.valid_moves@[j].origin == position
                                            && self.valid_moves@[j].destination == c by {
                                    if targets@.contains(c) && !before.contains(c) {
                                        assert(self.valid_moves@[i as int] == l);
                                    }
                                    if before.contains(c) {
                                        let x = choose|x: int| 0 <= x < before.len() && before[x] == c;
                                        assert(targets@[x] == c);
                                    }
                                    if exists|j: int|
                                        0 <= j < i + 1 && self.valid_moves@[j].origin == position
                                            && self.valid_moves@[j].destination == c {
                                        let j = choose|j: int|
                                            0 <= j < i + 1 && self.valid_moves@[j].origin == position
                                                && self.valid_moves@[j].destination == c;
                                        if j == i {
                                            assert(targets@[targets@.len() - 1] == c);
                                        }
                                    }
                                }
                            }
                            i = i + 1;
                        }
                        self.highlighted = targets;
                        proof {
                            assert forall|c: Coord|
                                #[trigger] self.highlighted@.contains(c) <==> exists|l: Lan|
                                    #[trigger] s0.valid_moves@.contains(l) && l.origin == position && l.destination
                                        == c by {
                                if self.highlighted@.contains(c) {
                                    let j = choose|j: int|
                                        0 <= j < s0.valid_moves@.len() && s0.valid_moves@[j].origin == position
                                            && s0.valid_moves@[j].destination == c;
                                    assert(s0.valid_moves@.contains(s0.valid_moves@[j]));
                                }
                                if exists|l: Lan| #[trigger] s0.valid_moves@.contains(l) && l.origin == position && l.destination == c {
                                    let l = choose|l: Lan| #[trigger] s0.valid_moves@.contains(l) && l.origin == position && l.destination == c;
                                    let j = choose|j: int| 0 <= j < s0.valid_moves@.len() && s0.valid_moves@[j] == l;
                                    assert(s0.valid_moves@[j].destination == c);
                                }
                            }
                        }
                        ReplOutcome::Shown(no_lines())
                    },
                    None => {
                        let mut m = String::from_str("Error: No piece found on ");
                        let t = position.to_text();
                        m.append(t.as_str());
                        ReplOutcome::Refused(one_line(m))
                    },
                }
            },
            ReplInput::Move(lan) => {
                let mut listed_text = false;
                let mut i: usize = 0;
                while i < self.valid_moves.len()
                    invariant
                        0 <= i <= self.valid_moves@.len(),
                        listed_text == exists|j: int| 0 <= j < i && self.valid_moves@[j] == lan,
                    decreases self.valid_moves@.len() - i,
                {
                    if self.valid_moves[i] == lan {
                        listed_text = true;
                    }
                    i = i + 1;
                }
                proof {
                    if self.valid_moves@.contains(lan) {
                        let j = choose|j: int| 0 <= j < self.valid_moves@.len() && self.valid_moves@[j] == lan;
                        assert(listed_text);
                    }
                }
                if listed_text && self.board.move_assert(lan) {
                    proof {
                        crate::lan::lemma_play_unique(s0.board, lan, self.board);
                    }
                    self.update = true;
                    let mut squares: Vec<Coord> = Vec::new();
                    squares.push(lan.origin);
                    squares.push(lan.destination);
                    self.highlighted = squares;
                    proof {
                        assert(self.highlighted@ =~= seq![lan.origin, lan.destination]);
                    }
                    ReplOutcome::Shown(no_lines())
                } else {
                    let mut m = String::from_str("Error: ");
                    let t = lan.to_text();
                    m.append(t.as_str());
                    m.append(" is an invalid move");
                    ReplOutcome::Refused(one_line(m))
                }
            },
            ReplInput::Bot(depth) => ReplOutcome::Bot(depth),
        }
    }

    /// Plays the move a bot found after a `bot` line: the board plays it and
    /// is drawn again. A move the board does not take leaves the game as it
    /// is; the answer tells whether the move was played.
    pub fn bot_move(&mut self, movement: Lan) -> (r: bool)
        requires
            old(self).wf(),
        ensures
            final(self).wf(),
            r == playable(old(self).board, movement),
            r ==> *final(self) == (Repl { board: play(old(self).board, movement), update: true, ..*old(self) }),
            !r ==> *final(self) == *old(self),
    {
        let ghost s0 = *self;
        if self.board.move_assert(movement) {
            proof {
                crate::lan::lemma_play_unique(s0.board, movement, self.board);
            }
            self.update = true;
            true
        } else {
            false
        }
    }

    /// Carries out a line, as `repl_received` says, with `chess960_id` the
    /// Chess960 position a new Chess960 game starts from.
    pub fn step(&mut self, line: &str, chess960_id: u16) -> (o: ReplOutcome)
        requires
            old(self).wf(),
            chess960_id < 960,
        ensures
            final(self).wf(),
            repl_received(*old(self), line@, chess960_id as int, *final(self), outcome_view(o)),
    {
        let text = trim(line);
        let r = ReplInput::parse(text);
        proof {
            assert(repl_input_result(trim_ws(line@), r));
        }
        match r {
            Ok(input) => self.handle(input, chess960_id),
            Err(e) => {
                let mut m = String::from_str("Error: ");
                let t = e.to_text();
                m.append(t.as_str());
                let mut v: Vec<String> = Vec::new();
                v.push(m);
                v.push(String::from_str("for available command, enter `help`"));
                proof {
                    assert(text_views(v@) =~= seq![
                        "Error: "@ + repl_error_text(e),
                        "for available command, enter `help`"@,
                    ]);
                }
                ReplOutcome::Refused(v)
            },
        }
    }
}

} // verus!
