//! A UCI session: what each line from the GUI does to the session, and what
//! it asks of the engine and of the output.
use vstd::prelude::*;
use vstd::string::StringExecFns;
use crate::board::Board;
use crate::color::Color;
use crate::decimal::{parse_nonzero, parse_nonzero_usize, parse_unsigned, parse_usize};
use crate::describe::{bool_error_text, input_error_text, int_error_text};
use crate::lan::{play_all, Lan};
use crate::misc::{chars_of, str_eq, trim, trim_ws, MEBIBYTES};
use crate::piece::standard_rank;
use crate::setup::{starting_board, validation, InvalidBoard};
use crate::uci::input::{
    command_at, go_wf, input_result, input_text, input_wf, position_gives, push_lans, token_views, tokens_of, ws_tokens, Go,
    Input, ParseInputError, Position,
};
use crate::uci::output::{lans_wf, moves_text, Boundary, IdField, OptionType, OptionValue, Output};

verus! {

/// The state of a session between two lines.
#[derive(Debug, Clone)]
pub struct Session {
    /// Whether `debug on` is in effect.
    pub debug: bool,
    /// The number of table entries the `Hash` option allows.
    pub hash_max_capacity: usize,
    /// The size in bytes of one table entry.
    pub element_size: usize,
    /// The board of the game.
    pub board: Board,
    /// The number of moves of the last `position` command.
    pub move_count: usize,
    /// Whether the next `position` command starts a new game.
    pub new_game: bool,
    /// Whether the GUI has sent `ucinewgame`.
    pub uci_new_game_available: bool,
    /// Whether the `Ponder` option is on.
    pub ponder: bool,
    /// The time limits of the last `go`, kept for `ponderhit`.
    pub last_go: Option<Go>,
}

/// A search the engine is asked to run.
#[derive(Debug, Clone)]
pub struct Search {
    /// The `go` command whose time limits the search follows.
    pub go: Go,
    pub depth: Option<u32>,
    pub nodes: Option<u32>,
    /// Mate to look for, in plies.
    pub mate: Option<u32>,
    pub hash_max_capacity: usize,
    /// The side to move when the search starts.
    pub current_player: Color,
    /// Whether the `Ponder` option is on.
    pub ponder_enabled: bool,
    /// Whether the search is a ponder search (no best move is sent).
    pub ponder_mode: bool,
}

/// What a line asks the caller to do, in order.
#[derive(Debug, Clone)]
pub enum Action {
    /// Send a reply.
    Print(Output),
    /// Send a debug message as an `info string`.
    Debug(String),
    /// Let the engine finish what it is doing.
    Ready,
    SetThread(usize),
    SetHashMaxCapacity(usize),
    ClearHash,
    SetBoard(Board),
    MovePiece(Lan),
    Calculate(Search),
    Stop,
    /// Stop, play the move the engine pondered on, and search again.
    PonderHit(Search),
    Quit,
}

/// Why a line cannot be carried out.
#[derive(Debug, Clone, Copy)]
pub enum SessionError {
    /// The position of a `position` command is not sound.
    InvalidBoard(InvalidBoard),
    /// A move of a `position` command cannot be played.
    IllegalMove(Lan),
    /// A `position` command lists fewer moves than the last one.
    MovesMissing,
    /// A `go mate` count has no number of plies.
    MateTooFar,
    /// `ponderhit` came before any `go`.
    NothingToPonder,
}

/// An action, with the text of a debug message as characters.
pub enum Effect {
    Print(Output),
    Debug(Seq<char>),
    Ready,
    SetThread(usize),
    SetHashMaxCapacity(usize),
    ClearHash,
    SetBoard(Board),
    MovePiece(Lan),
    Calculate(Search),
    Stop,
    PonderHit(Search),
    Quit,
}

impl Action {
    pub open spec fn effect(self) -> Effect {
        match self {
            Action::Print(o) => Effect::Print(o),
            Action::Debug(m) => Effect::Debug(m@),
            Action::Ready => Effect::Ready,
            Action::SetThread(n) => Effect::SetThread(n),
            Action::SetHashMaxCapacity(n) => Effect::SetHashMaxCapacity(n),
            Action::ClearHash => Effect::ClearHash,
            Action::SetBoard(b) => Effect::SetBoard(b),
            Action::MovePiece(l) => Effect::MovePiece(l),
            Action::Calculate(s) => Effect::Calculate(s),
            Action::Stop => Effect::Stop,
            Action::PonderHit(s) => Effect::PonderHit(s),
            Action::Quit => Effect::Quit,
        }
    }
}

/// The effects of a list of actions.
pub open spec fn effects(v: Seq<Action>) -> Seq<Effect> {
    Seq::new(v.len(), |i: int| v[i].effect())
}

/// The effects of what a line gave.
pub open spec fn outcome(r: Result<Vec<Action>, SessionError>) -> Result<Seq<Effect>, SessionError> {
    match r {
        Ok(v) => Ok(effects(v@)),
        Err(e) => Err(e),
    }
}

/// The debug messages, when debugging is on.
pub open spec fn debug_notes(debug: bool, messages: Seq<Seq<char>>) -> Seq<Effect> {
    if debug {
        Seq::new(messages.len(), |i: int| Effect::Debug(messages[i]))
    } else {
        Seq::empty()
    }
}

/// The table entries allowed by `size` (as the `Hash` option gives it) with
/// entries of `element_size` bytes: whole entries per byte of the size, times
/// a mebibyte, held at the largest `usize`.
pub open spec fn hash_capacity(size: int, element_size: int) -> int {
    let n = (size / element_size) * MEBIBYTES;
    if n > usize::MAX {
        usize::MAX as int
    } else {
        n
    }
}

/// The value of an option as characters.
pub open spec fn value_view(value: Option<&str>) -> Option<Seq<char>> {
    match value {
        Some(v) => Some(v@),
        None => None,
    }
}

/// The state after setting an option.
pub open spec fn option_state(s: Session, name: Seq<char>, value: Option<Seq<char>>) -> Session {
    if name == "UCI_Chess960"@ || name == "Thread"@ {
        s
    } else if name == "Hash"@ {
        match value {
            Some(v) => match parse_unsigned(v, usize::MAX as int) {
                Ok(n) => Session { hash_max_capacity: hash_capacity(n, s.element_size as int) as usize, ..s },
                Err(_) => s,
            },
            None => s,
        }
    } else if name == "Clear Hash"@ {
        s
    } else if name == "Ponder"@ && value == Some("true"@) {
        Session { ponder: true, ..s }
    } else if name == "Ponder"@ && value == Some("false"@) {
        Session { ponder: false, ..s }
    } else {
        s
    }
}

/// What setting an option asks for: the engine's thread count, its table
/// size, or clearing its table; otherwise at most a debug message.
pub open spec fn option_effects(s: Session, name: Seq<char>, value: Option<Seq<char>>) -> Seq<Effect> {
    if name == "UCI_Chess960"@ {
        debug_notes(
            s.debug && !(value == Some("true"@) || value == Some("false"@)),
            seq!["set UCI_Chess960 to invalid value; ignoring"@],
        )
    } else if name == "Thread"@ {
        match value {
            None => debug_notes(s.debug, seq!["set `Thread` without value; ignoring"@]),
            Some(v) => match parse_nonzero(v, usize::MAX as int) {
                Ok(n) => seq![Effect::SetThread(n as usize)],
                Err(e) => debug_notes(
                    s.debug,
                    seq!["set `Thread` to an invalid value; ignoring"@, "error: "@ + int_error_text(e)],
                ),
            },
        }
    } else if name == "Hash"@ {
        match value {
            None => debug_notes(s.debug, seq!["set `Hash` without value; ignoring"@]),
            Some(v) => match parse_unsigned(v, usize::MAX as int) {
                Ok(n) => seq![Effect::SetHashMaxCapacity(hash_capacity(n, s.element_size as int) as usize)],
                Err(e) => debug_notes(
                    s.debug,
                    seq!["set `Hash` to an invalid value; ignoring"@, "error: "@ + int_error_text(e)],
                ),
            },
        }
    } else if name == "Clear Hash"@ {
        if value is None {
            seq![Effect::ClearHash]
        } else {
            debug_notes(s.debug, seq!["set `Clear Hash` to invalid value; ignoring"@])
        }
    } else if name == "Ponder"@ {
        match value {
            Some(v) => if v == "true"@ || v == "false"@ {
                Seq::empty()
            } else {
                debug_notes(
                    s.debug,
                    seq!["set `Ponder` to an invalid value; ignoring"@, "error: "@ + bool_error_text()],
                )
            },
            None => debug_notes(s.debug, seq!["set `Ponder` without value; ignoring"@]),
        }
    } else if name == "UCI_EngineAbout"@ {
        debug_notes(s.debug, seq!["setting the option `UCI_EngineAbout` is ignored"@])
    } else {
        debug_notes(s.debug, seq!["unknown option `"@ + name + "`; ignoring"@])
    }
}

/// The next `position` command sets the board up anew rather than playing
/// on from the last one.
pub open spec fn fresh_position(s: Session) -> bool {
    !s.uci_new_game_available || s.new_game
}

/// What a `position` command does: set up the position and play its moves,
/// or, playing on, play the moves after those of the last command.
pub open spec fn position_handled(
    s: Session,
    position: Position,
    moves: Seq<Lan>,
    t: Session,
    r: Result<Seq<Effect>, SessionError>,
) -> bool {
    if fresh_position(s) {
        exists|r0: Result<Board, InvalidBoard>|
            #[trigger] position_gives(position, r0) && match r0 {
                Err(e) => t == s && r == Err::<Seq<Effect>, SessionError>(SessionError::InvalidBoard(e)),
                Ok(b0) => match play_all(b0, moves) {
                    Err(l) => t == s && r == Err::<Seq<Effect>, SessionError>(SessionError::IllegalMove(l)),
                    Ok(b1) => t == Session { board: b1, new_game: false, move_count: moves.len() as usize, ..s }
                        && r == Ok::<Seq<Effect>, SessionError>(
                        debug_notes(s.debug, seq!["setting up new board"@]) + seq![Effect::SetBoard(b1)],
                    ),
                },
            }
    } else if s.move_count > moves.len() {
        t == s && r == Err::<Seq<Effect>, SessionError>(SessionError::MovesMissing)
    } else {
        let rest = moves.subrange(s.move_count as int, moves.len() as int);
        match play_all(s.board, rest) {
            Err(l) => t == s && r == Err::<Seq<Effect>, SessionError>(SessionError::IllegalMove(l)),
            Ok(b1) => t == Session { board: b1, move_count: moves.len() as usize, ..s } && r == Ok::<
                Seq<Effect>,
                SessionError,
            >(
                debug_notes(s.debug, seq!["reusing previous board. moves used:"@ + moves_text(rest)])
                    + Seq::new(rest.len(), |i: int| Effect::MovePiece(rest[i])),
            ),
        }
    }
}

/// The limits of a `go` kept for `ponderhit`: the times, without the moves
/// to search, ponder mode, depth, nodes, mate or fixed move time.
pub open spec fn kept_go(go: Go) -> Go {
    Go { search_moves: None, ponder: false, depth: None, nodes: None, mate: None, move_time: None, ..go }
}

/// The plies of a mate in `moves` moves for the side to move: white mates on
/// its own ply, black one ply sooner.
pub open spec fn mate_plies(mate: Option<u32>, c: Color) -> Result<Option<u32>, SessionError> {
    match mate {
        None => Ok(None),
        Some(m) => if 2 * m > u32::MAX {
            Err(SessionError::MateTooFar)
        } else if c == Color::White {
            Ok(Some((2 * m) as u32))
        } else {
            Ok(Some((2 * m - 1) as u32))
        },
    }
}

/// The debug messages about the parts of a `go` that are not supported.
pub open spec fn go_notes(go: Go) -> Seq<Seq<char>> {
    let a = if go.search_moves is Some {
        seq!["`go searchmoves` is unsupported; ignoring"@]
    } else {
        Seq::empty()
    };
    if go.nodes is Some {
        a.push("`go nodes` is unsupported; ignoring"@)
    } else {
        a
    }
}

/// What a `go` command does: start a search with its limits.
pub open spec fn go_handled(s: Session, go: Go, t: Session, r: Result<Seq<Effect>, SessionError>) -> bool {
    match mate_plies(go.mate, s.board.current_player) {
        Err(e) => t == s && r == Err::<Seq<Effect>, SessionError>(e),
        Ok(mate) => t == Session { new_game: false, last_go: Some(kept_go(go)), ..s } && r == Ok::<
            Seq<Effect>,
            SessionError,
        >(
            seq![
                Effect::Calculate(
                    Search {
                        go,
                        depth: go.depth,
                        nodes: go.nodes,
                        mate,
                        hash_max_capacity: s.hash_max_capacity,
                        current_player: s.board.current_player,
                        ponder_enabled: s.ponder,
                        ponder_mode: go.ponder,
                    },
                ),
            ] + debug_notes(s.debug, go_notes(go)),
        ),
    }
}

/// What a command does to the session (`t` after `s`) and what it asks for.
pub open spec fn handled(s: Session, input: Input, t: Session, r: Result<Seq<Effect>, SessionError>) -> bool {
    match input {
        Input::Debug(v) => t == Session { debug: v, ..s } && r == Ok::<Seq<Effect>, SessionError>(Seq::empty()),
        Input::IsReady => t == s && r == Ok::<Seq<Effect>, SessionError>(
            seq![Effect::Ready, Effect::Print(Output::ReadyOk)],
        ),
        Input::SetOption { name, value } => t == option_state(s, name@, value_view(value)) && r == Ok::<
            Seq<Effect>,
            SessionError,
        >(option_effects(s, name@, value_view(value))),
        Input::Register(_) => t == s && r == Ok::<Seq<Effect>, SessionError>(
            debug_notes(s.debug, seq!["`register` is ignored"@]),
        ),
        Input::UciNewGame => t == Session {
            new_game: true,
            uci_new_game_available: true,
            board: t.board,
            ..s
        } && t.board.wf() && starting_board(t.board, standard_rank()) && validation(t.board) == Ok::<
            (),
            InvalidBoard,
        >(()) && r == Ok::<Seq<Effect>, SessionError>(seq![Effect::SetBoard(t.board)]),
        Input::Position { position, moves } => position_handled(s, position, moves@, t, r),
        Input::Go(go) => go_handled(s, go, t, r),
        Input::Stop => t == s && r == Ok::<Seq<Effect>, SessionError>(seq![Effect::Stop]),
        Input::PonderHit => t == s && match s.last_go {
            None => r == Err::<Seq<Effect>, SessionError>(SessionError::NothingToPonder),
            Some(g) => r == Ok::<Seq<Effect>, SessionError>(
                seq![
                    Effect::PonderHit(
                        Search {
                            go: g,
                            depth: None,
                            nodes: None,
                            mate: None,
                            hash_max_capacity: s.hash_max_capacity,
                            current_player: s.board.current_player,
                            ponder_enabled: s.ponder,
                            ponder_mode: false,
                        },
                    ),
                ],
            ),
        },
        Input::Quit => t == s && r == Ok::<Seq<Effect>, SessionError>(seq![Effect::Quit]),
        Input::Uci | Input::Repl | Input::Fuzz => t == s && r == Ok::<Seq<Effect>, SessionError>(Seq::empty()),
    }
}

/// The warning given, when debugging, about the parts of a line that the
/// command read from it does not show.
pub open spec fn recognition_notes(s: Session, text: Seq<char>, x: Input) -> Seq<Effect> {
    debug_notes(
        s.debug && ws_tokens(text) != ws_tokens(input_text(x)),
        seq![
            "warning: there are parts of input that aren't recognized"@,
            "recognized input: "@ + input_text(x),
        ],
    )
}

/// `e` is the debug message about the error of reading a command from
/// character `j` of `text` on.
pub open spec fn error_note_at(text: Seq<char>, j: int, e: Effect) -> bool {
    exists|err: ParseInputError|
        input_result(text.subrange(j, text.len() as int), Err(err)) && e == Effect::Debug(
            "error: "@ + input_error_text(err),
        )
}

/// What a line does: nothing when it is blank; otherwise the command read
/// from it, after the warning about unread parts; otherwise, when debugging,
/// the error of every start of the line.
pub open spec fn received(s: Session, line: Seq<char>, t: Session, r: Result<Seq<Effect>, SessionError>) -> bool {
    let text = trim_ws(line);
    if text.len() == 0 {
        t == s && r == Ok::<Seq<Effect>, SessionError>(Seq::empty())
    } else if exists|i: int, x: Input| #[trigger] command_at(text, i, x) {
        exists|i: int, x: Input, h: Result<Seq<Effect>, SessionError>|
            #![trigger command_at(text, i, x), handled(s, x, t, h)]
            command_at(text, i, x) && input_wf(x) && handled(s, x, t, h) && match h {
                Ok(e) => r == Ok::<Seq<Effect>, SessionError>(recognition_notes(s, text, x) + e),
                Err(e) => r == Err::<Seq<Effect>, SessionError>(e),
            }
    } else {
        &&& t == s
        &&& r is Ok
        &&& r->Ok_0.len() == if s.debug {
            text.len()
        } else {
            0
        }
        &&& forall|j: int| 0 <= j < r->Ok_0.len() ==> #[trigger] error_note_at(text, j, r->Ok_0[j])
    }
}

/// A line that cannot be carried out leaves the session as it was.
pub proof fn lemma_refusal_keeps_session(
    s: Session,
    line: Seq<char>,
    t: Session,
    r: Result<Seq<Effect>, SessionError>,
)
    requires
        received(s, line, t, r),
        r is Err,
    ensures
        t == s,
{
    let text = trim_ws(line);
    if text.len() != 0 && exists|i: int, x: Input| #[trigger] command_at(text, i, x) {
        let (i, x, h) = choose|i: int, x: Input, h: Result<Seq<Effect>, SessionError>|
            #![trigger command_at(text, i, x), handled(s, x, t, h)]
            command_at(text, i, x) && input_wf(x) && handled(s, x, t, h) && match h {
                Ok(e) => r == Ok::<Seq<Effect>, SessionError>(recognition_notes(s, text, x) + e),
                Err(e) => r == Err::<Seq<Effect>, SessionError>(e),
            };
        assert(h is Err);
        if let Input::Position { position, moves } = x {
            if fresh_position(s) {
                let r0 = choose|r0: Result<Board, InvalidBoard>|
                    #[trigger] position_gives(position, r0) && match r0 {
                        Err(e) => t == s && h == Err::<Seq<Effect>, SessionError>(SessionError::InvalidBoard(e)),
                        Ok(b0) => match play_all(b0, moves@) {
                            Err(l) => t == s && h == Err::<Seq<Effect>, SessionError>(SessionError::IllegalMove(l)),
                            Ok(b1) => t == Session { board: b1, new_game: false, move_count: moves@.len() as usize, ..s }
                                && h == Ok::<Seq<Effect>, SessionError>(
                                debug_notes(s.debug, seq!["setting up new board"@]) + seq![Effect::SetBoard(b1)],
                            ),
                        },
                    };
            }
        }
    }
}

impl Session {
    /// The session is sound: its board is, table entries have a size, and the
    /// kept `go` has no moves to search.
    pub open spec fn wf(self) -> bool {
        &&& self.board.wf()
        &&& self.element_size > 0
        &&& self.last_go matches Some(g) ==> g.search_moves is None
    }

    /// A new session on the standard starting position, with table entries
    /// of `element_size` bytes.
    pub fn new(element_size: usize) -> (r: Session)
        requires
            element_size > 0,
        ensures
            r.wf(),
            !r.debug,
            r.hash_max_capacity == 0,
            r.element_size == element_size,
            starting_board(r.board, standard_rank()),
            r.move_count == 0,
            r.new_game,
            !r.uci_new_game_available,
            !r.ponder,
            r.last_go is None,
    {
        Session {
            debug: false,
            hash_max_capacity: 0,
            element_size,
            board: Board::starting_position(),
            move_count: 0,
            new_game: true,
            uci_new_game_available: false,
            ponder: false,
            last_go: None,
        }
    }
}

/// A debug message.
fn note(text: &str) -> (a: Action)
    ensures
        a.effect() == Effect::Debug(text@),
{
    Action::Debug(String::from_str(text))
}

/// A debug message that ends with the text of an error.
fn error_note(error_text: String) -> (a: Action)
    ensures
        a.effect() == Effect::Debug("error: "@ + error_text@),
{
    let mut m = String::from_str("error: ");
    m.append(error_text.as_str());
    Action::Debug(m)
}

/// The reply a finished search sends: nothing after a ponder search;
/// otherwise its best move, with the move to ponder on when the `Ponder`
/// option is on.
pub fn best_move_reply(
    ponder_enabled: bool,
    ponder_mode: bool,
    movement: Option<Lan>,
    ponder_movement: Option<Lan>,
) -> (r: Option<Output>)
    ensures
        r == if ponder_mode {
            None
        } else {
            Some(
                Output::BestMove {
                    movement,
                    ponder: if ponder_enabled {
                        ponder_movement
                    } else {
                        None
                    },
                },
            )
        },
{
    if ponder_mode {
        None
    } else {
        let ponder = if ponder_enabled {
            ponder_movement
        } else {
            None
        };
        Some(Output::BestMove { movement, ponder })
    }
}

/// Whether two lists of tokens are the same.
fn tokens_eq(a: &Vec<Vec<char>>, b: &Vec<Vec<char>>) -> (r: bool)
    ensures
        r == (token_views(a@) == token_views(b@)),
{
    if a.len() != b.len() {
        proof {
            assert(token_views(a@).len() != token_views(b@).len());
        }
        return false;
    }
    let mut i: usize = 0;
    while i < a.len()
        invariant
            0 <= i <= a@.len(),
            a@.len() == b@.len(),
            forall|j: int| 0 <= j < i ==> a@[j]@ == b@[j]@,
        decreases a@.len() - i,
    {
        let x = &a[i];
        let y = &b[i];
        proof {
            assert(token_views(a@)[i as int] == x@);
            assert(token_views(b@)[i as int] == y@);
        }
        if x.len() != y.len() {
            proof {
                assert(token_views(a@)[i as int] != token_views(b@)[i as int]);
            }
            return false;
        }
        let mut k: usize = 0;
        while k < x.len()
            invariant
                0 <= k <= x@.len(),
                x@.len() == y@.len(),
                x@ == token_views(a@)[i as int],
                y@ == token_views(b@)[i as int],
                forall|j: int| 0 <= j < k ==> x@[j] == y@[j],
            decreases x@.len() - k,
        {
            if x[k] != y[k] {
                proof {
                    assert(token_views(a@)[i as int][k as int] != token_views(b@)[i as int][k as int]);
                }
                return false;
            }
            k = k + 1;
        }
        proof {
            assert(x@ =~= y@);
        }
        i = i + 1;
    }
    proof {
        assert(token_views(a@) =~= token_views(b@));
    }
    true
}

/// `o` declares the option `name` with this kind, default and range.
pub open spec fn option_is(
    o: Output,
    name: Seq<char>,
    kind: OptionType,
    default: Option<OptionValue>,
    boundary: Option<Boundary>,
) -> bool {
    o matches Output::Option { name: n, kind: k, default: d, boundary: b } && n@ == name && k == kind && d
        == default && b == boundary
}

/// The range of a spin option from `min` to the largest `i32`.
pub open spec fn spin_range(min: i32) -> Boundary {
    Boundary::Boundary { min, max: i32::MAX }
}

/// The replies that open a session: the engine's name and author, its
/// options (threads, table size, clearing the table, Chess960, pondering and
/// the text about the engine), and `uciok`.
pub fn config(name: &'static str, author: &'static str, about: &'static str) -> (r: Vec<Output>)
    ensures
        r@.len() == 9,
        r@[0] == (Output::Id { field: IdField::Name, value: name }),
        r@[1] == (Output::Id { field: IdField::Author, value: author }),
        option_is(r@[2], "Thread"@, OptionType::Spin, Some(OptionValue::Int(1)), Some(spin_range(1))),
        option_is(r@[3], "Hash"@, OptionType::Spin, Some(OptionValue::Int(0)), Some(spin_range(0))),
        option_is(r@[4], "Clear Hash"@, OptionType::Button, None, None),
        option_is(r@[5], "UCI_Chess960"@, OptionType::Check, Some(OptionValue::Bool(false)), None),
        option_is(r@[6], "Ponder"@, OptionType::Check, Some(OptionValue::Bool(false)), None),
        option_is(r@[7], "UCI_EngineAbout"@, OptionType::String, Some(OptionValue::Str(about)), None),
        r@[8] == Output::UciOk,
{
    let mut r: Vec<Output> = Vec::new();
    r.push(Output::Id { field: IdField::Name, value: name });
    r.push(Output::Id { field: IdField::Author, value: author });
    r.push(
        Output::Option {
            name: "Thread",
            kind: OptionType::Spin,
            default: Some(OptionValue::Int(1)),
            boundary: Some(Boundary::Boundary { min: 1, max: i32::MAX }),
        },
    );
    r.push(
        Output::Option {
            name: "Hash",
            kind: OptionType::Spin,
            default: Some(OptionValue::Int(0)),
            boundary: Some(Boundary::Boundary { min: 0, max: i32::MAX }),
        },
    );
    r.push(Output::Option { name: "Clear Hash", kind: OptionType::Button, default: None, boundary: None });
    r.push(
        Output::Option {
            name: "UCI_Chess960",
            kind: OptionType::Check,
            default: Some(OptionValue::Bool(false)),
            boundary: None,
        },
    );
    r.push(
        Output::Option {
            name: "Ponder",
            kind: OptionType::Check,
            default: Some(OptionValue::Bool(false)),
            boundary: None,
        },
    );
    r.push(
        Output::Option {
            name: "UCI_EngineAbout",
            kind: OptionType::String,
            default: Some(OptionValue::Str(about)),
            boundary: None,
        },
    );
    r.push(Output::UciOk);
    r
}

impl Session {
    /// Sets an option, as `option_state` and `option_effects` say.
    pub fn set_option(&mut self, name: &str, value: Option<&str>) -> (r: Vec<Action>)
        requires
            old(self).wf(),
        ensures
            final(self).wf(),
            *final(self) == option_state(*old(self), name@, value_view(value)),
            effects(r@) == option_effects(*old(self), name@, value_view(value)),
    {
        let ghost s0 = *self;
        let ghost v = value_view(value);
        let mut actions: Vec<Action> = Vec::new();
        if str_eq(name, "UCI_Chess960") {
            let valid = match value {
                Some(v) => str_eq(v, "true") || str_eq(v, "false"),
                None => false,
            };
            if self.debug && !valid {
                actions.push(note("set UCI_Chess960 to invalid value; ignoring"));
            }
        } else if str_eq(name, "Thread") {
            match value {
                None => {
                    if self.debug {
                        actions.push(note("set `Thread` without value; ignoring"));
                    }
                },
                Some(v) => {
                    let cs = chars_of(v);
                    match parse_nonzero_usize(&cs) {
                        Ok(n) => actions.push(Action::SetThread(n)),
                        Err(e) => {
                            if self.debug {
                                actions.push(note("set `Thread` to an invalid value; ignoring"));
                                actions.push(error_note(e.to_text()));
                            }
                        },
                    }
                },
            }
        } else if str_eq(name, "Hash") {
            match value {
                None => {
                    if self.debug {
                        actions.push(note("set `Hash` without value; ignoring"));
                    }
                },
                Some(v) => {
                    let cs = chars_of(v);
                    match parse_usize(&cs) {
                        Ok(size) => {
                            let entries = size / self.element_size;
                            let capacity = match entries.checked_mul(MEBIBYTES) {
                                Some(c) => c,
                                None => usize::MAX,
                            };
                            proof {
                                assert(size == parse_unsigned(v@, usize::MAX as int)->Ok_0);
                                assert(capacity == hash_capacity(size as int, s0.element_size as int));
                            }
                            self.hash_max_capacity = capacity;
                            actions.push(Action::SetHashMaxCapacity(capacity));
                        },
                        Err(e) => {
                            if self.debug {
                                actions.push(note("set `Hash` to an invalid value; ignoring"));
                                actions.push(error_note(e.to_text()));
                            }
                        },
                    }
                },
            }
        } else if str_eq(name, "Clear Hash") {
            match value {
                None => actions.push(Action::ClearHash),
                Some(_) => {
                    if self.debug {
                        actions.push(note("set `Clear Hash` to invalid value; ignoring"));
                    }
                },
            }
        } else if str_eq(name, "Ponder") {
            match value {
                Some(v) => {
                    if str_eq(v, "true") {
                        self.ponder = true;
                    } else if str_eq(v, "false") {
                        self.ponder = false;
                    } else if self.debug {
                        actions.push(note("set `Ponder` to an invalid value; ignoring"));
                        actions.push(error_note(String::from_str("provided string was not `true` or `false`")));
                    }
                },
                None => {
                    if self.debug {
                        actions.push(note("set `Ponder` without value; ignoring"));
                    }
                },
            }
        } else if str_eq(name, "UCI_EngineAbout") {
            if self.debug {
                actions.push(note("setting the option `UCI_EngineAbout` is ignored"));
            }
        } else if self.debug {
            let mut m = String::from_str("unknown option `");
            m.append(name);
            m.append("`; ignoring");
            actions.push(Action::Debug(m));
        }
        proof {
            assert(effects(actions@) =~= option_effects(s0, name@, v));
        }
        actions
    }

    /// Carries out a `position` command, as `position_handled` says.
    pub fn set_position(&mut self, position: Position, moves: &Vec<Lan>) -> (r: Result<Vec<Action>, SessionError>)
        requires
            old(self).wf(),
            position matches Position::Fen(f) ==> f.board.wf(),
            lans_wf(moves@),
        ensures
            final(self).wf(),
            position_handled(*old(self), position, moves@, *final(self), outcome(r)),
    {
        let ghost s0 = *self;
        if !self.uci_new_game_available || self.new_game {
            let r0 = position.board();
            proof {
                assert(position_gives(position, r0));
            }
            let mut board = match r0 {
                Ok(b) => b,
                Err(e) => {
                    return Err(SessionError::InvalidBoard(e));
                },
            };
            proof {
                assert(moves@.subrange(0, moves@.len() as int) =~= moves@);
            }
            match board.play_lans(moves, 0) {
                Ok(()) => {},
                Err(l) => {
                    return Err(SessionError::IllegalMove(l));
                },
            }
            let mut actions: Vec<Action> = Vec::new();
            if self.debug {
                actions.push(note("setting up new board"));
            }
            actions.push(Action::SetBoard(board));
            self.board = board;
            self.new_game = false;
            self.move_count = moves.len();
            proof {
                assert(effects(actions@) =~= debug_notes(s0.debug, seq!["setting up new board"@]) + seq![
                    Effect::SetBoard(board),
                ]);
            }
            Ok(actions)
        } else {
            if self.move_count > moves.len() {
                return Err(SessionError::MovesMissing);
            }
            let from = self.move_count;
            let mut board = self.board;
            match board.play_lans(moves, from) {
                Ok(()) => {},
                Err(l) => {
                    return Err(SessionError::IllegalMove(l));
                },
            }
            let ghost rest = moves@.subrange(from as int, moves@.len() as int);
            let mut played: Vec<Lan> = Vec::new();
            let mut i = from;
            while i < moves.len()
                invariant
                    from <= i <= moves@.len(),
                    played@ == moves@.subrange(from as int, i as int),
                decreases moves@.len() - i,
            {
                played.push(moves[i]);
                i = i + 1;
                proof {
                    assert(played@ =~= moves@.subrange(from as int, i as int));
                }
            }
            let mut actions: Vec<Action> = Vec::new();
            if self.debug {
                let mut m = String::from_str("reusing previous board. moves used:");
                push_lans(&mut m, &played);
                actions.push(Action::Debug(m));
            }
            let start = actions.len();
            let ghost prefix = actions@;
            let mut k: usize = 0;
            while k < played.len()
                invariant
                    0 <= k <= played@.len(),
                    start == prefix.len(),
                    actions@.len() == start + k,
                    actions@.subrange(0, start as int) == prefix,
                    forall|j: int| 0 <= j < k ==> #[trigger] actions@[start + j] == Action::MovePiece(played@[j]),
                decreases played@.len() - k,
            {
                actions.push(Action::MovePiece(played[k]));
                k = k + 1;
                proof {
                    assert(actions@.subrange(0, start as int) =~= prefix);
                }
            }
            self.board = board;
            self.move_count = moves.len();
            proof {
                assert(played@ =~= rest);
                assert(effects(prefix) =~= debug_notes(
                    s0.debug,
                    seq!["reusing previous board. moves used:"@ + moves_text(rest)],
                ));
                assert forall|j: int| 0 <= j < rest.len() implies effects(actions@)[start + j] == Effect::MovePiece(rest[j]) by {
                    assert(actions@[start + j] == Action::MovePiece(played@[j]));
                }
                assert forall|j: int| 0 <= j < start implies effects(actions@)[j] == effects(prefix)[j] by {
                    assert(actions@[j] == actions@.subrange(0, start as int)[j]);
                }
                assert(effects(actions@) =~= debug_notes(
                    s0.debug,
                    seq!["reusing previous board. moves used:"@ + moves_text(rest)],
                ) + Seq::new(rest.len(), |j: int| Effect::MovePiece(rest[j])));
            }
            Ok(actions)
        }
    }
}

impl Session {
    /// Carries out a `go` command, as `go_handled` says.
    pub fn start_search(&mut self, go: Go) -> (r: Result<Vec<Action>, SessionError>)
        requires
            old(self).wf(),
            go_wf(go.view()),
        ensures
            final(self).wf(),
            go_handled(*old(self), go, *final(self), outcome(r)),
    {
        let ghost s0 = *self;
        let ghost g0 = go;
        let player = self.board.current_player;
        let mate = match go.mate {
            None => None,
            Some(m) => {
                if m > 0x7fff_ffff {
                    return Err(SessionError::MateTooFar);
                }
                match player {
                    Color::White => Some(m * 2),
                    Color::Black => Some(m * 2 - 1),
                }
            },
        };
        let kept = Go {
            search_moves: None,
            ponder: false,
            w_time: go.w_time,
            b_time: go.b_time,
            w_inc: go.w_inc,
            b_inc: go.b_inc,
            moves_to_go: go.moves_to_go,
            depth: None,
            nodes: None,
            mate: None,
            move_time: None,
            infinite: go.infinite,
        };
        let unsupported_moves = go.search_moves.is_some();
        let unsupported_nodes = go.nodes.is_some();
        let search = Search {
            depth: go.depth,
            nodes: go.nodes,
            mate,
            hash_max_capacity: self.hash_max_capacity,
            current_player: player,
            ponder_enabled: self.ponder,
            ponder_mode: go.ponder,
            go,
        };
        self.new_game = false;
        self.last_go = Some(kept);
        let mut actions: Vec<Action> = Vec::new();
        actions.push(Action::Calculate(search));
        if self.debug {
            if unsupported_moves {
                actions.push(note("`go searchmoves` is unsupported; ignoring"));
            }
            if unsupported_nodes {
                actions.push(note("`go nodes` is unsupported; ignoring"));
            }
        }
        proof {
            assert(kept == kept_go(g0));
            assert(effects(actions@) =~= seq![
                Effect::Calculate(
                    Search {
                        go: g0,
                        depth: g0.depth,
                        nodes: g0.nodes,
                        mate,
                        hash_max_capacity: s0.hash_max_capacity,
                        current_player: s0.board.current_player,
                        ponder_enabled: s0.ponder,
                        ponder_mode: g0.ponder,
                    },
                ),
            ] + debug_notes(s0.debug, go_notes(g0)));
        }
        Ok(actions)
    }

    /// Carries out a command, as `handled` says.
    pub fn handle(&mut self, input: Input) -> (r: Result<Vec<Action>, SessionError>)
        requires
            old(self).wf(),
            input_wf(input),
        ensures
            final(self).wf(),
            handled(*old(self), input, *final(self), outcome(r)),
    {
        let ghost s0 = *self;
        match input {
            Input::Debug(v) => {
                self.debug = v;
                let actions: Vec<Action> = Vec::new();
                proof {
                    assert(effects(actions@) =~= Seq::<Effect>::empty());
                }
                Ok(actions)
            },
            Input::IsReady => {
                let mut actions: Vec<Action> = Vec::new();
                actions.push(Action::Ready);
                actions.push(Action::Print(Output::ReadyOk));
                proof {
                    assert(effects(actions@) =~= seq![Effect::Ready, Effect::Print(Output::ReadyOk)]);
                }
                Ok(actions)
            },
            Input::SetOption { name, value } => Ok(self.set_option(name, value)),
            Input::Register(_) => {
                let mut actions: Vec<Action> = Vec::new();
                if self.debug {
                    actions.push(note("`register` is ignored"));
                }
                proof {
                    assert(effects(actions@) =~= debug_notes(s0.debug, seq!["`register` is ignored"@]));
                }
                Ok(actions)
            },
            Input::UciNewGame => {
                let board = Board::starting_position();
                self.new_game = true;
                self.uci_new_game_available = true;
                self.board = board;
                let mut actions: Vec<Action> = Vec::new();
                actions.push(Action::SetBoard(board));
                proof {
                    assert(effects(actions@) =~= seq![Effect::SetBoard(board)]);
                }
                Ok(actions)
            },
            Input::Position { position, moves } => self.set_position(position, &moves),
            Input::Go(go) => self.start_search(go),
            Input::Stop => {
                let mut actions: Vec<Action> = Vec::new();
                actions.push(Action::Stop);
                proof {
                    assert(effects(actions@) =~= seq![Effect::Stop]);
                }
                Ok(actions)
            },
            Input::PonderHit => {
                let go = match &self.last_go {
                    Some(g) => Go {
                        search_moves: None,
                        ponder: g.ponder,
                        w_time: g.w_time,
                        b_time: g.b_time,
                        w_inc: g.w_inc,
                        b_inc: g.b_inc,
                        moves_to_go: g.moves_to_go,
                        depth: g.depth,
                        nodes: g.nodes,
                        mate: g.mate,
                        move_time: g.move_time,
                        infinite: g.infinite,
                    },
                    None => {
                        return Err(SessionError::NothingToPonder);
                    },
                };
                proof {
                    assert(go == s0.last_go->Some_0);
                }
                let search = Search {
                    depth: None,
                    nodes: None,
                    mate: None,
                    hash_max_capacity: self.hash_max_capacity,
                    current_player: self.board.current_player,
                    ponder_enabled: self.ponder,
                    ponder_mode: false,
                    go,
                };
                let mut actions: Vec<Action> = Vec::new();
                actions.push(Action::PonderHit(search));
                proof {
                    assert(effects(actions@) =~= seq![Effect::PonderHit(search)]);
                }
                Ok(actions)
            },
            Input::Quit => {
                let mut actions: Vec<Action> = Vec::new();
                actions.push(Action::Quit);
                proof {
                    assert(effects(actions@) =~= seq![Effect::Quit]);
                }
                Ok(actions)
            },
            Input::Uci | Input::Repl | Input::Fuzz => {
                let actions: Vec<Action> = Vec::new();
                proof {
                    assert(effects(actions@) =~= Seq::<Effect>::empty());
                }
                Ok(actions)
            },
        }
    }
}

impl Session {
    /// Carries out a line from the GUI, as `received` says.
    pub fn receive(&mut self, line: &str) -> (r: Result<Vec<Action>, SessionError>)
        requires
            old(self).wf(),
            line@.len() < usize::MAX,
        ensures
            final(self).wf(),
            received(*old(self), line@, *final(self), outcome(r)),
    {
        let ghost s0 = *self;
        let text = trim(line);
        if text.unicode_len() == 0 {
            let actions: Vec<Action> = Vec::new();
            proof {
                assert(effects(actions@) =~= Seq::<Effect>::empty());
            }
            return Ok(actions);
        }
        match Input::from_str(text) {
            Err(errors) => {
                let mut actions: Vec<Action> = Vec::new();
                if self.debug {
                    if errors.len() == 0 {
                        actions.push(note("error parsing input but no error information found"));
                    }
                    let mut i: usize = 0;
                    while i < errors.len()
                        invariant
                            0 <= i <= errors@.len(),
                            errors@.len() > 0,
                            actions@.len() == i,
                            forall|j: int|
                                0 <= j < i ==> #[trigger] actions@[j].effect() == Effect::Debug(
                                    "error: "@ + input_error_text(errors@[j]),
                                ),
                        decreases errors@.len() - i,
                    {
                        actions.push(error_note(errors[i].to_text()));
                        i = i + 1;
                    }
                }
                proof {
                    assert forall|i: int, x: Input| !#[trigger] command_at(text@, i, x) by {
                        if command_at(text@, i, x) {
                            assert(input_result(text@.subrange(i, text@.len() as int), Err(errors@[i])));
                        }
                    }
                    let tx = trim_ws(line@);
                    let rr = outcome(Ok::<Vec<Action>, SessionError>(actions));
                    assert(!exists|i: int, x: Input| #[trigger] command_at(tx, i, x));
                    assert(rr->Ok_0.len() == if s0.debug { tx.len() } else { 0 });
                    assert forall|j: int| 0 <= j < rr->Ok_0.len() implies #[trigger] error_note_at(tx, j, rr->Ok_0[j]) by {
                        assert(input_result(tx.subrange(j, tx.len() as int), Err(errors@[j])));
                        assert(rr->Ok_0[j] == Effect::Debug("error: "@ + input_error_text(errors@[j])));
                    }
                }
                Ok(actions)
            },
            Ok(x) => {
                let ghost i0 = choose|i: int| #[trigger] command_at(text@, i, x);
                let mut actions: Vec<Action> = Vec::new();
                if self.debug {
                    let recognized = x.to_text();
                    let given = chars_of(text);
                    let shown = chars_of(recognized.as_str());
                    let given_tokens = tokens_of(&given);
                    let shown_tokens = tokens_of(&shown);
                    if !tokens_eq(&given_tokens, &shown_tokens) {
                        actions.push(note("warning: there are parts of input that aren't recognized"));
                        let mut m = String::from_str("recognized input: ");
                        m.append(recognized.as_str());
                        actions.push(Action::Debug(m));
                    }
                }
                let ghost notes = actions@;
                proof {
                    assert(effects(notes) =~= recognition_notes(s0, text@, x));
                }
                match self.handle(x) {
                    Ok(more) => {
                        let ghost handled_effects = effects(more@);
                        let mut more = more;
                        actions.append(&mut more);
                        proof {
                            assert(effects(actions@) =~= recognition_notes(s0, text@, x) + handled_effects);
                            let h = Ok::<Seq<Effect>, SessionError>(handled_effects);
                            assert(command_at(text@, i0, x) && handled(s0, x, *self, h));
                        }
                        Ok(actions)
                    },
                    Err(e) => {
                        proof {
                            let h = Err::<Seq<Effect>, SessionError>(e);
                            assert(command_at(text@, i0, x) && handled(s0, x, *self, h));
                        }
                        Err(e)
                    },
                }
            },
        }
    }
}

} // verus!
