//! Commands a GUI sends over UCI.
use vstd::prelude::*;
use crate::decimal::{decimal_text, parse_u32, parse_u64, parse_unsigned, push_decimal};
use vstd::string::StringExecFns;
use crate::fen::{fen_has_fields, fen_text, parse_fen, Fen, ParseFenError};
use crate::lan::{lan_text, parse_lan, Lan};
use crate::board::Board;
use crate::piece::standard_rank;
use crate::setup::{built_from_grid, starting_board, InvalidBoard};
use crate::uci::output::{lans_wf, moves_text};
use crate::misc::{
    back_ws, chars_of, extract_prefix_token, find_token_from, is_whitespace, is_ws, next_ws,
    skip_ws, split_by_token, starts_with_token, strip_prefix_token, token_prefix,
};

verus! {

/// Where a game starts: the standard position, or a FEN.
#[derive(Debug, Clone, Copy, PartialEq, Eq, Hash)]
pub enum Position {
    StartPos,
    Fen(Fen),
}

/// The board a position gives: the standard starting position, or what
/// building a board from the FEN's grid gives.
pub open spec fn position_gives(p: Position, r: Result<Board, InvalidBoard>) -> bool {
    match p {
        Position::StartPos => r matches Ok(b) && b.wf() && starting_board(b, standard_rank()),
        Position::Fen(f) => built_from_grid(f.board, r),
    }
}

impl Position {
    /// The board the game starts from: the standard starting position, or the
    /// board a FEN's grid builds.
    pub fn board(self) -> (r: Result<Board, InvalidBoard>)
        requires
            self matches Position::Fen(f) ==> f.board.wf(),
        ensures
            position_gives(self, r),
    {
        match self {
            Position::StartPos => Ok(Board::starting_position()),
            Position::Fen(fen) => Board::try_from_hashable(fen.board),
        }
    }
}

/// The limits of a `go` command. Times are in milliseconds; counts are
/// positive when present.
#[derive(Debug, Clone, PartialEq, Eq, Hash)]
pub struct Go {
    pub search_moves: Option<Vec<Lan>>,
    pub ponder: bool,
    pub w_time: Option<u64>,
    pub b_time: Option<u64>,
    pub w_inc: Option<u64>,
    pub b_inc: Option<u64>,
    pub moves_to_go: Option<u32>,
    pub depth: Option<u32>,
    pub nodes: Option<u32>,
    pub mate: Option<u32>,
    pub move_time: Option<u64>,
    pub infinite: bool,
}

/// A command from the GUI.
#[derive(Debug, Clone, PartialEq, Eq, Hash)]
pub enum Input<'a> {
    Uci,
    Debug(bool),
    IsReady,
    SetOption { name: &'a str, value: Option<&'a str> },
    Register(&'a str),
    UciNewGame,
    Position { position: Position, moves: Vec<Lan> },
    Go(Go),
    Stop,
    PonderHit,
    Quit,
    Repl,
    Fuzz,
}

/// Why a `position` command cannot be read.
#[derive(Debug, Clone, PartialEq, Eq, Hash)]
pub enum ParsePositionError {
    UnknownCommand(String),
    Unexpected(char),
    ParseFenError(ParseFenError),
}

/// Why a command cannot be read.
#[derive(Debug, Clone, PartialEq, Eq, Hash)]
pub enum ParseInputError {
    ParsePositionError(ParsePositionError),
    UnknownCommand(String),
    NotOnOrOff,
    NoName,
}

/// Whether the characters are those of the text.
fn eq_text(v: &Vec<char>, lit: &str) -> (r: bool)
    ensures
        r == (v@ == lit@),
{
    let n = lit.unicode_len();
    if v.len() != n {
        return false;
    }
    let mut i: usize = 0;
    while i < n
        invariant
            n == lit@.len(),
            v@.len() == n,
            0 <= i <= n,
            forall|j: int| 0 <= j < i ==> v@[j] == lit@[j],
        decreases n - i,
    {
        if v[i] != lit.get_char(i) {
            return false;
        }
        i = i + 1;
    }
    proof {
        assert(v@ =~= lit@);
    }
    true
}

/// The tokens of a text from index `i` on: the pieces between white space
/// that are not empty, with `cur` the piece being read.
pub open spec fn tokens_from(s: Seq<char>, i: int, cur: Seq<char>, done: Seq<Seq<char>>) -> Seq<Seq<char>>
    decreases s.len() - i,
{
    if i < 0 || i >= s.len() {
        if cur.len() > 0 {
            done.push(cur)
        } else {
            done
        }
    } else if is_ws(s[i]) {
        tokens_from(s, i + 1, Seq::empty(), if cur.len() > 0 { done.push(cur) } else { done })
    } else {
        tokens_from(s, i + 1, cur.push(s[i]), done)
    }
}

/// The tokens of a text: its pieces between white space, empty ones left out.
pub open spec fn ws_tokens(s: Seq<char>) -> Seq<Seq<char>> {
    tokens_from(s, 0, Seq::empty(), Seq::empty())
}

/// The views of a list of character lists.
pub open spec fn token_views(v: Seq<Vec<char>>) -> Seq<Seq<char>> {
    v.map_values(|p: Vec<char>| p@)
}

/// Cuts a text into its tokens, as `ws_tokens` says.
pub(crate) fn tokens_of(s: &Vec<char>) -> (r: Vec<Vec<char>>)
    ensures
        token_views(r@) == ws_tokens(s@),
{
    let mut done: Vec<Vec<char>> = Vec::new();
    let mut cur: Vec<char> = Vec::new();
    let mut i: usize = 0;
    proof {
        assert(token_views(done@) =~= Seq::<Seq<char>>::empty());
        assert(cur@ =~= Seq::<char>::empty());
    }
    while i < s.len()
        invariant
            0 <= i <= s@.len(),
            ws_tokens(s@) == tokens_from(s@, i as int, cur@, token_views(done@)),
        decreases s@.len() - i,
    {
        if is_whitespace(s[i]) {
            if cur.len() > 0 {
                let piece = cur;
                proof {
                    assert(token_views(done@.push(piece)) =~= token_views(done@).push(piece@));
                }
                done.push(piece);
            }
            cur = Vec::new();
            proof {
                assert(cur@ =~= Seq::<char>::empty());
            }
        } else {
            cur.push(s[i]);
        }
        i = i + 1;
    }
    if cur.len() > 0 {
        proof {
            assert(token_views(done@.push(cur)) =~= token_views(done@).push(cur@));
        }
        done.push(cur);
    }
    done
}

/// The moves read from tokens `i` on, up to the first that is not a move.
pub open spec fn lan_run(toks: Seq<Seq<char>>, i: int) -> Seq<Lan>
    decreases toks.len() - i,
{
    if i < 0 || i >= toks.len() {
        Seq::empty()
    } else {
        match parse_lan(toks[i]) {
            Ok(l) => seq![l] + lan_run(toks, i + 1),
            Err(_) => Seq::empty(),
        }
    }
}

/// The first token from `i` on that is not a move.
pub open spec fn lan_run_end(toks: Seq<Seq<char>>, i: int) -> int
    decreases toks.len() - i,
{
    if i < 0 || i >= toks.len() {
        i
    } else {
        match parse_lan(toks[i]) {
            Ok(_) => lan_run_end(toks, i + 1),
            Err(_) => i,
        }
    }
}

/// Reads the moves from tokens `i` on, up to the first that is not a move.
fn read_lan_run(toks: &Vec<Vec<char>>, i: usize) -> (r: (Vec<Lan>, usize))
    requires
        i <= toks@.len(),
    ensures
        r.0@ == lan_run(token_views(toks@), i as int),
        r.1 == lan_run_end(token_views(toks@), i as int),
        i <= r.1 <= toks@.len(),
        lans_wf(r.0@),
{
    let mut moves: Vec<Lan> = Vec::new();
    let mut j = i;
    while j < toks.len()
        invariant
            i <= j <= toks@.len(),
            lan_run(token_views(toks@), i as int) == moves@ + lan_run(token_views(toks@), j as int),
            lan_run_end(token_views(toks@), i as int) == lan_run_end(token_views(toks@), j as int),
            lans_wf(moves@),
        decreases toks@.len() - j,
    {
        let text = crate::fen::string_of(&toks[j]);
        proof {
            assert(token_views(toks@)[j as int] == toks@[j as int]@);
        }
        match Lan::parse(text.as_str()) {
            Ok(l) => {
                proof {
                    assert(moves@.push(l) + lan_run(token_views(toks@), j + 1) =~= moves@ + lan_run(
                        token_views(toks@),
                        j as int,
                    ));
                }
                moves.push(l);
            },
            Err(_) => {
                proof {
                    assert(moves@ + lan_run(token_views(toks@), j as int) =~= moves@);
                }
                return (moves, j);
            },
        }
        j = j + 1;
    }
    proof {
        assert(moves@ + lan_run(token_views(toks@), j as int) =~= moves@);
    }
    (moves, j)
}

/// The limits of a `go` command as values.
pub struct GoView {
    pub search_moves: Option<Seq<Lan>>,
    pub ponder: bool,
    pub w_time: Option<u64>,
    pub b_time: Option<u64>,
    pub w_inc: Option<u64>,
    pub b_inc: Option<u64>,
    pub moves_to_go: Option<u32>,
    pub depth: Option<u32>,
    pub nodes: Option<u32>,
    pub mate: Option<u32>,
    pub move_time: Option<u64>,
    pub infinite: bool,
}

/// A `go` command with no limits.
pub open spec fn go_default() -> GoView {
    GoView {
        search_moves: None,
        ponder: false,
        w_time: None,
        b_time: None,
        w_inc: None,
        b_inc: None,
        moves_to_go: None,
        depth: None,
        nodes: None,
        mate: None,
        move_time: None,
        infinite: false,
    }
}

/// A time token: milliseconds as a `u64`.
pub open spec fn time_of(t: Seq<char>) -> Option<u64> {
    match parse_unsigned(t, u64::MAX as int) {
        Ok(v) => Some(v as u64),
        Err(_) => None,
    }
}

/// A count token: a positive `u32`.
pub open spec fn count_of(t: Seq<char>) -> Option<u32> {
    match parse_unsigned(t, u32::MAX as int) {
        Ok(v) => if v != 0 {
            Some(v as u32)
        } else {
            None
        },
        Err(_) => None,
    }
}

/// Reading the tokens of a `go` command from `i` on: `searchmoves` takes the
/// moves that follow; `ponder` and `infinite` are flags; the time and count
/// keywords take the next token, kept when it reads as a value; anything
/// else is skipped.
pub open spec fn go_from(toks: Seq<Seq<char>>, i: int, g: GoView) -> GoView
    decreases toks.len() - i,
{
    if i < 0 || i >= toks.len() {
        g
    } else {
        let t = toks[i];
        let next = if i + 1 < toks.len() {
            Some(toks[i + 1])
        } else {
            None
        };
        let after = if i + 1 < toks.len() {
            i + 2
        } else {
            i + 1
        };
        if t == "searchmoves"@ {
            let j = lan_run_end(toks, i + 1);
            if j <= i || j > toks.len() {
                g
            } else {
                go_from(toks, j, GoView { search_moves: Some(lan_run(toks, i + 1)), ..g })
            }
        } else if t == "ponder"@ {
            go_from(toks, i + 1, GoView { ponder: true, ..g })
        } else if t == "infinite"@ {
            go_from(toks, i + 1, GoView { infinite: true, ..g })
        } else if t == "wtime"@ || t == "btime"@ || t == "winc"@ || t == "binc"@ || t == "movetime"@ {
            let v = match next {
                Some(n) => time_of(n),
                None => None,
            };
            let g2 = match v {
                None => g,
                Some(v) => if t == "wtime"@ {
                    GoView { w_time: Some(v), ..g }
                } else if t == "btime"@ {
                    GoView { b_time: Some(v), ..g }
                } else if t == "winc"@ {
                    GoView { w_inc: Some(v), ..g }
                } else if t == "binc"@ {
                    GoView { b_inc: Some(v), ..g }
                } else {
                    GoView { move_time: Some(v), ..g }
                },
            };
            go_from(toks, after, g2)
        } else if t == "movestogo"@ || t == "depth"@ || t == "nodes"@ || t == "mate"@ {
            let v = match next {
                Some(n) => count_of(n),
                None => None,
            };
            let g2 = match v {
                None => g,
                Some(v) => if t == "movestogo"@ {
                    GoView { moves_to_go: Some(v), ..g }
                } else if t == "depth"@ {
                    GoView { depth: Some(v), ..g }
                } else if t == "nodes"@ {
                    GoView { nodes: Some(v), ..g }
                } else {
                    GoView { mate: Some(v), ..g }
                },
            };
            go_from(toks, after, g2)
        } else {
            go_from(toks, i + 1, g)
        }
    }
}

/// Each limit of a `go` command comes from its own keyword: where no token
/// from `i` on is `wtime` (`btime`, `winc`, `binc`, `movetime`, `movestogo`,
/// `depth`, `nodes`, `mate`, `ponder`, `infinite`), reading the tokens leaves
/// white's time (black's time, white's increment, black's increment, the
/// time per move, the moves to go, the depth, the nodes, the mate, the ponder
/// and infinite flags) as it was.
pub proof fn lemma_go_clock_fields(toks: Seq<Seq<char>>, i: int, g: GoView)
    ensures
        (forall|k: int| i <= k < toks.len() ==> toks[k] != "wtime"@) ==> go_from(toks, i, g).w_time == g.w_time,
        (forall|k: int| i <= k < toks.len() ==> toks[k] != "btime"@) ==> go_from(toks, i, g).b_time == g.b_time,
        (forall|k: int| i <= k < toks.len() ==> toks[k] != "winc"@) ==> go_from(toks, i, g).w_inc == g.w_inc,
        (forall|k: int| i <= k < toks.len() ==> toks[k] != "binc"@) ==> go_from(toks, i, g).b_inc == g.b_inc,
        (forall|k: int| i <= k < toks.len() ==> toks[k] != "movetime"@) ==> go_from(toks, i, g).move_time
            == g.move_time,
        (forall|k: int| i <= k < toks.len() ==> toks[k] != "movestogo"@) ==> go_from(toks, i, g).moves_to_go
            == g.moves_to_go,
        (forall|k: int| i <= k < toks.len() ==> toks[k] != "depth"@) ==> go_from(toks, i, g).depth == g.depth,
        (forall|k: int| i <= k < toks.len() ==> toks[k] != "nodes"@) ==> go_from(toks, i, g).nodes == g.nodes,
        (forall|k: int| i <= k < toks.len() ==> toks[k] != "mate"@) ==> go_from(toks, i, g).mate == g.mate,
        (forall|k: int| i <= k < toks.len() ==> toks[k] != "ponder"@) ==> go_from(toks, i, g).ponder == g.ponder,
        (forall|k: int| i <= k < toks.len() ==> toks[k] != "infinite"@) ==> go_from(toks, i, g).infinite
            == g.infinite,
    decreases toks.len() - i,
{
    if 0 <= i < toks.len() {
        let t = toks[i];
        let next = if i + 1 < toks.len() {
            Some(toks[i + 1])
        } else {
            None
        };
        let after = if i + 1 < toks.len() {
            i + 2
        } else {
            i + 1
        };
        if t == "searchmoves"@ {
            let j = lan_run_end(toks, i + 1);
            if !(j <= i || j > toks.len()) {
                lemma_go_clock_fields(toks, j, GoView { search_moves: Some(lan_run(toks, i + 1)), ..g });
            }
        } else if t == "ponder"@ {
            lemma_go_clock_fields(toks, i + 1, GoView { ponder: true, ..g });
        } else if t == "infinite"@ {
            lemma_go_clock_fields(toks, i + 1, GoView { infinite: true, ..g });
        } else if t == "wtime"@ || t == "btime"@ || t == "winc"@ || t == "binc"@ || t == "movetime"@ {
            let v = match next {
                Some(n) => time_of(n),
                None => None,
            };
            let g2 = match v {
                None => g,
                Some(v) => if t == "wtime"@ {
                    GoView { w_time: Some(v), ..g }
                } else if t == "btime"@ {
                    GoView { b_time: Some(v), ..g }
                } else if t == "winc"@ {
                    GoView { w_inc: Some(v), ..g }
                } else if t == "binc"@ {
                    GoView { b_inc: Some(v), ..g }
                } else {
                    GoView { move_time: Some(v), ..g }
                },
            };
            lemma_go_clock_fields(toks, after, g2);
        } else if t == "movestogo"@ || t == "depth"@ || t == "nodes"@ || t == "mate"@ {
            let v = match next {
                Some(n) => count_of(n),
                None => None,
            };
            let g2 = match v {
                None => g,
                Some(v) => if t == "movestogo"@ {
                    GoView { moves_to_go: Some(v), ..g }
                } else if t == "depth"@ {
                    GoView { depth: Some(v), ..g }
                } else if t == "nodes"@ {
                    GoView { nodes: Some(v), ..g }
                } else {
                    GoView { mate: Some(v), ..g }
                },
            };
            lemma_go_clock_fields(toks, after, g2);
        } else {
            lemma_go_clock_fields(toks, i + 1, g);
        }
    }
}

/// `winc N`, `binc N`, `wtime N` and `btime N`, with `N` a time, set white's
/// increment, black's increment, white's time and black's time respectively
/// to `N`, and nothing else.
pub proof fn lemma_go_increment_alone(n: Seq<char>, v: u64)
    requires
        time_of(n) == Some(v),
    ensures
        go_from(seq!["winc"@, n], 0, go_default()) == (GoView { w_inc: Some(v), ..go_default() }),
        go_from(seq!["binc"@, n], 0, go_default()) == (GoView { b_inc: Some(v), ..go_default() }),
        go_from(seq!["wtime"@, n], 0, go_default()) == (GoView { w_time: Some(v), ..go_default() }),
        go_from(seq!["btime"@, n], 0, go_default()) == (GoView { b_time: Some(v), ..go_default() }),
{
    reveal_strlit("searchmoves");
    reveal_strlit("ponder");
    reveal_strlit("infinite");
    reveal_strlit("wtime");
    reveal_strlit("btime");
    reveal_strlit("winc");
    reveal_strlit("binc");
    let w = seq!["winc"@, n];
    let b = seq!["binc"@, n];
    assert(w[0] == "winc"@ && w[1] == n);
    assert(w.len() == 2);
    assert("winc"@.len() == 4 && "binc"@.len() == 4 && "searchmoves"@.len() == 11 && "ponder"@.len() == 6);
    assert("infinite"@.len() == 8 && "wtime"@.len() == 5 && "btime"@.len() == 5);
    assert("binc"@[0] != "winc"@[0]);
    assert(b.len() == 2);
    assert("wtime"@[0] != "btime"@[0]);
    let wt = seq!["wtime"@, n];
    let bt = seq!["btime"@, n];
    assert(wt[0] == "wtime"@ && wt[1] == n && wt.len() == 2);
    assert(bt[0] == "btime"@ && bt[1] == n && bt.len() == 2);
    assert(go_from(wt, 2, GoView { w_time: Some(v), ..go_default() }) == (GoView { w_time: Some(v), ..go_default() }));
    assert(go_from(bt, 2, GoView { b_time: Some(v), ..go_default() }) == (GoView { b_time: Some(v), ..go_default() }));
    assert(b[0] == "binc"@ && b[1] == n);
    assert(go_from(w, 2, GoView { w_inc: Some(v), ..go_default() }) == (GoView { w_inc: Some(v), ..go_default() }));
    assert(go_from(b, 2, GoView { b_inc: Some(v), ..go_default() }) == (GoView { b_inc: Some(v), ..go_default() }));
}

/// What reading the limits of a `go` command gives.
pub open spec fn parse_go(s: Seq<char>) -> GoView {
    go_from(ws_tokens(s), 0, go_default())
}

impl Go {
    /// The limits as values.
    pub open spec fn view(&self) -> GoView {
        GoView {
            search_moves: match self.search_moves {
                Some(v) => Some(v@),
                None => None,
            },
            ponder: self.ponder,
            w_time: self.w_time,
            b_time: self.b_time,
            w_inc: self.w_inc,
            b_inc: self.b_inc,
            moves_to_go: self.moves_to_go,
            depth: self.depth,
            nodes: self.nodes,
            mate: self.mate,
            move_time: self.move_time,
            infinite: self.infinite,
        }
    }

    /// Reads the limits of a `go` command, as `parse_go` says.
    pub fn parse(s: &str) -> (r: Go)
        ensures
            r.view() == parse_go(s@),
            go_wf(r.view()),
    {
        let cs = chars_of(s);
        let toks = tokens_of(&cs);
        let mut go = Go {
            search_moves: None,
            ponder: false,
            w_time: None,
            b_time: None,
            w_inc: None,
            b_inc: None,
            moves_to_go: None,
            depth: None,
            nodes: None,
            mate: None,
            move_time: None,
            infinite: false,
        };
        let ghost tv = token_views(toks@);
        let mut i: usize = 0;
        while i < toks.len()
            invariant
                0 <= i <= toks@.len(),
                tv == token_views(toks@),
                tv == ws_tokens(s@),
                parse_go(s@) == go_from(tv, i as int, go.view()),
                go_wf(go.view()),
            decreases toks@.len() - i,
        {
            let t = &toks[i];
            let ghost g0 = go.view();
            let ghost i0 = i as int;
            proof {
                assert(tv[i as int] == t@);
                if i + 1 < toks@.len() {
                    assert(tv[i + 1] == toks@[i + 1]@);
                }
            }
            if eq_text(t, "searchmoves") {
                let (moves, j) = read_lan_run(&toks, i + 1);
                go.search_moves = Some(moves);
                i = j;
                proof {
                    assert(go.view() == GoView { search_moves: Some(lan_run(tv, i0 + 1)), ..g0 });
                    assert(go_from(tv, i0, g0) == go_from(tv, i as int, go.view()));
                }
            } else if eq_text(t, "ponder") {
                go.ponder = true;
                i = i + 1;
                proof {
                    assert(go.view() == GoView { ponder: true, ..g0 });
                    assert(go_from(tv, i0, g0) == go_from(tv, i as int, go.view()));
                }
            } else if eq_text(t, "infinite") {
                go.infinite = true;
                i = i + 1;
                proof {
                    assert(go_from(tv, i0, g0) == go_from(tv, i as int, go.view()));
                }
            } else if eq_text(t, "wtime") || eq_text(t, "btime") || eq_text(t, "winc") || eq_text(t, "binc")
                || eq_text(t, "movetime") {
                if i + 1 < toks.len() {
                    match parse_u64(&toks[i + 1]) {
                        Ok(v) => {
                            if eq_text(t, "wtime") {
                                go.w_time = Some(v);
                            } else if eq_text(t, "btime") {
                                go.b_time = Some(v);
                            } else if eq_text(t, "winc") {
                                go.w_inc = Some(v);
                            } else if eq_text(t, "binc") {
                                go.b_inc = Some(v);
                            } else {
                                go.move_time = Some(v);
                            }
                        },
                        Err(_) => {},
                    }
                    i = i + 2;
                } else {
                    i = i + 1;
                }
            } else if eq_text(t, "movestogo") || eq_text(t, "depth") || eq_text(t, "nodes") || eq_text(t, "mate") {
                if i + 1 < toks.len() {
                    match parse_u32(&toks[i + 1]) {
                        Ok(v) => {
                            if v != 0 {
                                if eq_text(t, "movestogo") {
                                    go.moves_to_go = Some(v);
                                } else if eq_text(t, "depth") {
                                    go.depth = Some(v);
                                } else if eq_text(t, "nodes") {
                                    go.nodes = Some(v);
                                } else {
                                    go.mate = Some(v);
                                }
                            }
                        },
                        Err(_) => {},
                    }
                    i = i + 2;
                } else {
                    i = i + 1;
                }
            } else {
                i = i + 1;
            }
            proof {
                assert(go_from(tv, i0, g0) == go_from(tv, i as int, go.view()));
            }
        }
        go
    }
}


/// The text after the token `t` that starts `s`, without the white space after it.
pub open spec fn after_token(s: Seq<char>, t: Seq<char>) -> Seq<char> {
    s.subrange(skip_ws(s, t.len() as int), s.len() as int)
}

/// What reading a position gives: `startpos` (with nothing after it), or
/// `fen` and a FEN; anything else is an unknown command named by its first token.
pub open spec fn position_result(s: Seq<char>, r: Result<Position, ParsePositionError>) -> bool {
    if s == "startpos"@ {
        r == Ok::<Position, ParsePositionError>(Position::StartPos)
    } else if token_prefix(s, "fen"@) {
        match parse_fen(after_token(s, "fen"@)) {
            Ok(fields) => r matches Ok(Position::Fen(f)) && fen_has_fields(f, fields),
            Err(e) => r == Err::<Position, ParsePositionError>(ParsePositionError::ParseFenError(e)),
        }
    } else if token_prefix(s, "startpos"@) {
        let rest = after_token(s, "startpos"@);
        if rest.len() > 0 {
            r == Err::<Position, ParsePositionError>(ParsePositionError::Unexpected(rest[0]))
        } else {
            r == Ok::<Position, ParsePositionError>(Position::StartPos)
        }
    } else {
        r matches Err(ParsePositionError::UnknownCommand(c)) && c@ == s.subrange(0, next_ws(s, 0))
    }
}

/// A string with the characters of a text.
fn owned(s: &str) -> (r: String)
    ensures
        r@ == s@,
{
    let v = chars_of(s);
    crate::fen::string_of(&v)
}

impl Position {
    /// Reads a position, as `position_result` says.
    pub fn parse(s: &str) -> (r: Result<Position, ParsePositionError>)
        ensures
            position_result(s@, r),
            r matches Ok(Position::Fen(f)) ==> f.board.wf(),
    {
        let cs = chars_of(s);
        if eq_text(&cs, "startpos") {
            return Ok(Position::StartPos);
        }
        if let Some(rest) = strip_prefix_token(s, "fen") {
            return match Fen::parse(rest) {
                Ok(f) => Ok(Position::Fen(f)),
                Err(e) => Err(ParsePositionError::ParseFenError(e)),
            };
        }
        if let Some(rest) = strip_prefix_token(s, "startpos") {
            if rest.unicode_len() > 0 {
                return Err(ParsePositionError::Unexpected(rest.get_char(0)));
            }
            return Ok(Position::StartPos);
        }
        Err(ParsePositionError::UnknownCommand(owned(extract_prefix_token(s))))
    }
}

/// The texts of the position and of the moves in a `position` command:
/// split at the token `moves` when there is one.
pub open spec fn position_parts(s: Seq<char>) -> (Seq<char>, Seq<char>) {
    match find_token_from(s, "moves"@, 0) {
        Some(p) => (
            s.subrange(0, back_ws(s, p)),
            s.subrange(skip_ws(s, p + "moves"@.len()), s.len() as int),
        ),
        None => (s, Seq::empty()),
    }
}

/// What reading a command from the start of `s` gives. The keywords are
/// tried in this order, each as a whole token; `setoption` needs `name`, and
/// splits its value at the token `value`; `position` reads its position and
/// then as many moves as read in a row.
pub open spec fn input_result(s: Seq<char>, r: Result<Input, ParseInputError>) -> bool {
    if token_prefix(s, "uci"@) {
        r == Ok::<Input, ParseInputError>(Input::Uci)
    } else if token_prefix(s, "debug"@) {
        let rest = after_token(s, "debug"@);
        if token_prefix(rest, "on"@) {
            r == Ok::<Input, ParseInputError>(Input::Debug(true))
        } else if token_prefix(rest, "off"@) {
            r == Ok::<Input, ParseInputError>(Input::Debug(false))
        } else {
            r == Err::<Input, ParseInputError>(ParseInputError::NotOnOrOff)
        }
    } else if token_prefix(s, "isready"@) {
        r == Ok::<Input, ParseInputError>(Input::IsReady)
    } else if token_prefix(s, "setoption"@) {
        let rest = after_token(s, "setoption"@);
        if !token_prefix(rest, "name"@) {
            r == Err::<Input, ParseInputError>(ParseInputError::NoName)
        } else {
            let rest = after_token(rest, "name"@);
            match find_token_from(rest, "value"@, 0) {
                None => r matches Ok(Input::SetOption { name, value: None }) && name@ == rest,
                Some(p) => r matches Ok(Input::SetOption { name, value: Some(v) }) && name@
                    == rest.subrange(0, back_ws(rest, p)) && v@ == rest.subrange(
                    skip_ws(rest, p + "value"@.len()),
                    rest.len() as int,
                ),
            }
        }
    } else if token_prefix(s, "register"@) {
        r matches Ok(Input::Register(x)) && x@ == after_token(s, "register"@)
    } else if token_prefix(s, "ucinewgame"@) {
        r == Ok::<Input, ParseInputError>(Input::UciNewGame)
    } else if token_prefix(s, "position"@) {
        let (pos, moves) = position_parts(after_token(s, "position"@));
        match r {
            Ok(Input::Position { position, moves: m }) => position_result(pos, Ok(position)) && m@
                == lan_run(ws_tokens(moves), 0),
            Err(ParseInputError::ParsePositionError(e)) => position_result(pos, Err(e)),
            _ => false,
        }
    } else if token_prefix(s, "go"@) {
        r matches Ok(Input::Go(g)) && g.view() == parse_go(after_token(s, "go"@))
    } else if token_prefix(s, "stop"@) {
        r == Ok::<Input, ParseInputError>(Input::Stop)
    } else if token_prefix(s, "ponderhit"@) {
        r == Ok::<Input, ParseInputError>(Input::PonderHit)
    } else if token_prefix(s, "quit"@) {
        r == Ok::<Input, ParseInputError>(Input::Quit)
    } else if token_prefix(s, "repl"@) {
        r == Ok::<Input, ParseInputError>(Input::Repl)
    } else if token_prefix(s, "fuzz"@) {
        r == Ok::<Input, ParseInputError>(Input::Fuzz)
    } else {
        r matches Err(ParseInputError::UnknownCommand(c)) && c@ == s.subrange(0, next_ws(s, 0))
    }
}

/// No command reads from character `j` of `s` on.
pub open spec fn no_command_at(s: Seq<char>, j: int) -> bool {
    exists|e: ParseInputError| input_result(s.subrange(j, s.len() as int), Err(e))
}

/// Command `x` reads from character `i` of `s` on, and from no earlier character.
pub open spec fn command_at(s: Seq<char>, i: int, x: Input) -> bool {
    &&& 0 <= i < s.len()
    &&& input_result(s.subrange(i, s.len() as int), Ok(x))
    &&& forall|j: int| 0 <= j < i ==> #[trigger] no_command_at(s, j)
}

impl<'a> Input<'a> {
    /// Reads a command from the start of `src`, as `input_result` says.
    pub fn from_str_from_start(src: &'a str) -> (r: Result<Input<'a>, ParseInputError>)
        requires
            src@.len() < usize::MAX,
        ensures
            input_result(src@, r),
            r matches Ok(x) ==> input_wf(x),
    {
        if starts_with_token(src, "uci") {
            Ok(Input::Uci)
        } else if let Some(rest) = strip_prefix_token(src, "debug") {
            if starts_with_token(rest, "on") {
                Ok(Input::Debug(true))
            } else if starts_with_token(rest, "off") {
                Ok(Input::Debug(false))
            } else {
                Err(ParseInputError::NotOnOrOff)
            }
        } else if starts_with_token(src, "isready") {
            Ok(Input::IsReady)
        } else if let Some(rest) = strip_prefix_token(src, "setoption") {
            let rest = match strip_prefix_token(rest, "name") {
                Some(rest) => rest,
                None => {
                    return Err(ParseInputError::NoName);
                },
            };
            match split_by_token(rest, "value") {
                Some((name, value)) => Ok(Input::SetOption { name, value: Some(value) }),
                None => Ok(Input::SetOption { name: rest, value: None }),
            }
        } else if let Some(rest) = strip_prefix_token(src, "register") {
            Ok(Input::Register(rest))
        } else if starts_with_token(src, "ucinewgame") {
            Ok(Input::UciNewGame)
        } else if let Some(rest) = strip_prefix_token(src, "position") {
            let (position_text, moves_text) = match split_by_token(rest, "moves") {
                Some(parts) => parts,
                None => {
                    proof {
                        reveal_strlit("");
                    }
                    (rest, "")
                },
            };
            proof {
                reveal_strlit("");
                assert(""@ =~= Seq::<char>::empty());
            }
            let position = match Position::parse(position_text) {
                Ok(p) => p,
                Err(e) => {
                    return Err(ParseInputError::ParsePositionError(e));
                },
            };
            let cs = chars_of(moves_text);
            let toks = tokens_of(&cs);
            let (moves, _) = read_lan_run(&toks, 0);
            Ok(Input::Position { position, moves })
        } else if let Some(rest) = strip_prefix_token(src, "go") {
            Ok(Input::Go(Go::parse(rest)))
        } else if starts_with_token(src, "stop") {
            Ok(Input::Stop)
        } else if starts_with_token(src, "ponderhit") {
            Ok(Input::PonderHit)
        } else if starts_with_token(src, "quit") {
            Ok(Input::Quit)
        } else if starts_with_token(src, "repl") {
            Ok(Input::Repl)
        } else if starts_with_token(src, "fuzz") {
            Ok(Input::Fuzz)
        } else {
            Err(ParseInputError::UnknownCommand(owned(extract_prefix_token(src))))
        }
    }

    /// Reads a command that may start anywhere in `src`: the first start,
    /// character by character, from which a command reads; otherwise the
    /// error of every start.
    pub fn from_str(src: &'a str) -> (r: Result<Input<'a>, Vec<ParseInputError>>)
        requires
            src@.len() < usize::MAX,
        ensures
            match r {
                Ok(x) => input_wf(x) && exists|i: int| #[trigger] command_at(src@, i, x),
                Err(errors) => errors@.len() == src@.len() && forall|j: int|
                    0 <= j < src@.len() ==> input_result(
                        #[trigger] src@.subrange(j, src@.len() as int),
                        Err(errors@[j]),
                    ),
            },
    {
        let n = src.unicode_len();
        let mut errors: Vec<ParseInputError> = Vec::new();
        let mut i: usize = 0;
        while i < n
            invariant
                n == src@.len(),
                n < usize::MAX,
                0 <= i <= n,
                errors@.len() == i,
                forall|j: int|
                    0 <= j < i ==> input_result(
                        #[trigger] src@.subrange(j, src@.len() as int),
                        Err(errors@[j]),
                    ),
            decreases n - i,
        {
            let sub = src.substring_char(i, n);
            match Input::from_str_from_start(sub) {
                Ok(x) => {
                    proof {
                        assert(input_result(src@.subrange(i as int, src@.len() as int), Ok(x)));
                        assert forall|j: int| 0 <= j < i implies #[trigger] no_command_at(src@, j) by {
                            assert(input_result(src@.subrange(j, src@.len() as int), Err(errors@[j])));
                        }
                        assert(command_at(src@, i as int, x));
                    }
                    return Ok(x);
                },
                Err(e) => {
                    errors.push(e);
                },
            }
            i = i + 1;
        }
        Err(errors)
    }
}


/// The parts joined by single spaces.
pub open spec fn join_spaces(parts: Seq<Seq<char>>) -> Seq<char>
    decreases parts.len(),
{
    if parts.len() == 0 {
        Seq::empty()
    } else if parts.len() == 1 {
        parts[0]
    } else {
        join_spaces(parts.drop_last()) + seq![' '] + parts.last()
    }
}

/// A keyword with a number.
pub open spec fn keyed(key: Seq<char>, n: nat) -> Seq<char> {
    key + seq![' '] + decimal_text(n)
}

/// The parts of a `go` command's text, in this order.
pub open spec fn go_parts(g: GoView) -> Seq<Seq<char>> {
    let a = match g.search_moves {
        Some(m) => seq!["searchmoves"@ + moves_text(m)],
        None => Seq::empty(),
    };
    let b = if g.ponder { a.push("ponder"@) } else { a };
    let c = match g.w_time { Some(v) => b.push(keyed("wtime"@, v as nat)), None => b };
    let d = match g.b_time { Some(v) => c.push(keyed("btime"@, v as nat)), None => c };
    let e = match g.w_inc { Some(v) => d.push(keyed("winc"@, v as nat)), None => d };
    let f = match g.b_inc { Some(v) => e.push(keyed("binc"@, v as nat)), None => e };
    let h = match g.moves_to_go { Some(v) => f.push(keyed("movestogo"@, v as nat)), None => f };
    let i = match g.depth { Some(v) => h.push(keyed("depth"@, v as nat)), None => h };
    let j = match g.nodes { Some(v) => i.push(keyed("nodes"@, v as nat)), None => i };
    let k = match g.mate { Some(v) => j.push(keyed("mate"@, v as nat)), None => j };
    let l = match g.move_time { Some(v) => k.push(keyed("movetime"@, v as nat)), None => k };
    if g.infinite { l.push("infinite"@) } else { l }
}

/// The moves of a `go` command are moves between squares of the board, and
/// its counts are positive.
pub open spec fn go_wf(g: GoView) -> bool {
    &&& g.search_moves matches Some(m) ==> lans_wf(m)
    &&& g.moves_to_go matches Some(n) ==> n > 0
    &&& g.depth matches Some(n) ==> n > 0
    &&& g.nodes matches Some(n) ==> n > 0
    &&& g.mate matches Some(n) ==> n > 0
}

/// Appends the moves, each after a space.
pub(crate) fn push_lans(s: &mut String, v: &Vec<Lan>)
    requires
        lans_wf(v@),
    ensures
        final(s)@ == old(s)@ + moves_text(v@),
{
    let mut i: usize = 0;
    while i < v.len()
        invariant
            0 <= i <= v@.len(),
            lans_wf(v@),
            s@ == old(s)@ + moves_text(v@.subrange(0, i as int)),
        decreases v@.len() - i,
    {
        s.append(" ");
        proof {
            reveal_strlit(" ");
        }
        let t = v[i].to_text();
        s.append(t.as_str());
        proof {
            let w = v@.subrange(0, i + 1);
            assert(w.drop_last() =~= v@.subrange(0, i as int));
            assert(s@ =~= old(s)@ + moves_text(w));
        }
        i = i + 1;
    }
    proof {
        assert(v@.subrange(0, v@.len() as int) =~= v@);
    }
}

/// Appends one more part, after a space unless it is the first.
fn push_part(s: &mut String, first: &mut bool, parts: Ghost<Seq<Seq<char>>>, part: &str)
    requires
        old(s)@ == join_spaces(parts@),
        *old(first) == (parts@.len() == 0),
    ensures
        final(s)@ == join_spaces(parts@.push(part@)),
        *final(first) == false,
{
    if !*first {
        s.append(" ");
        proof {
            reveal_strlit(" ");
        }
    }
    s.append(part);
    *first = false;
    proof {
        assert(parts@.push(part@).drop_last() =~= parts@);
        assert(final(s)@ =~= join_spaces(parts@.push(part@)));
    }
}

/// A keyword with a number.
fn keyed_text(key: &str, n: u64) -> (r: String)
    ensures
        r@ == keyed(key@, n as nat),
{
    let mut r = String::new();
    proof {
        reveal_strlit("");
        reveal_strlit(" ");
    }
    r.append(key);
    r.append(" ");
    push_decimal(&mut r, n);
    proof {
        assert(r@ =~= keyed(key@, n as nat));
    }
    r
}

impl Go {
    /// The text of the limits, as `go_parts` and `join_spaces` say.
    pub fn to_text(&self) -> (s: String)
        requires
            go_wf(self.view()),
        ensures
            s@ == join_spaces(go_parts(self.view())),
    {
        let ghost g = self.view();
        let mut s = String::new();
        let mut first = true;
        let ghost mut parts: Seq<Seq<char>> = Seq::empty();
        proof {
            reveal_strlit("");
            assert(s@ =~= join_spaces(parts));
        }
        match &self.search_moves {
            Some(moves) => {
                let mut part = String::new();
                part.append("searchmoves");
                push_lans(&mut part, moves);
                push_part(&mut s, &mut first, Ghost(parts), part.as_str());
                proof {
                    parts = parts.push(part@);
                }
            },
            None => {},
        }
        assert(parts == match g.search_moves {
            Some(m) => seq!["searchmoves"@ + moves_text(m)],
            None => Seq::<Seq<char>>::empty(),
        });
        if self.ponder {
            push_part(&mut s, &mut first, Ghost(parts), "ponder");
            proof {
                parts = parts.push("ponder"@);
            }
        }
        let ghost p0 = parts;
        let Ghost(p1) = push_keyed(&mut s, &mut first, Ghost(parts), "wtime", self.w_time);
        let Ghost(p2) = push_keyed(&mut s, &mut first, Ghost(p1), "btime", self.b_time);
        let Ghost(p3) = push_keyed(&mut s, &mut first, Ghost(p2), "winc", self.w_inc);
        let Ghost(p4) = push_keyed(&mut s, &mut first, Ghost(p3), "binc", self.b_inc);
        let Ghost(p5) = push_keyed(&mut s, &mut first, Ghost(p4), "movestogo", widen(self.moves_to_go));
        let Ghost(p6) = push_keyed(&mut s, &mut first, Ghost(p5), "depth", widen(self.depth));
        let Ghost(p7) = push_keyed(&mut s, &mut first, Ghost(p6), "nodes", widen(self.nodes));
        let Ghost(p8) = push_keyed(&mut s, &mut first, Ghost(p7), "mate", widen(self.mate));
        let Ghost(p9) = push_keyed(&mut s, &mut first, Ghost(p8), "movetime", self.move_time);
        proof {
            parts = p9;
        }
        if self.infinite {
            push_part(&mut s, &mut first, Ghost(parts), "infinite");
            proof {
                parts = parts.push("infinite"@);
            }
        }
        s
    }
}

/// A count as a `u64`.
fn widen(v: Option<u32>) -> (r: Option<u64>)
    ensures
        r == match v {
            Some(x) => Some(x as u64),
            None => None::<u64>,
        },
{
    match v {
        Some(x) => Some(x as u64),
        None => None,
    }
}

/// Appends a keyword and its value, when there is a value.
fn push_keyed(s: &mut String, first: &mut bool, parts: Ghost<Seq<Seq<char>>>, key: &str, value: Option<u64>) -> (r: Ghost<Seq<Seq<char>>>)
    requires
        old(s)@ == join_spaces(parts@),
        *old(first) == (parts@.len() == 0),
    ensures
        r@ == match value {
            Some(v) => parts@.push(keyed(key@, v as nat)),
            None => parts@,
        },
        final(s)@ == join_spaces(r@),
        *final(first) == (r@.len() == 0),
{
    match value {
        Some(v) => {
            let part = keyed_text(key, v);
            push_part(s, first, parts, part.as_str());
            Ghost(parts@.push(part@))
        },
        None => parts,
    }
}


/// The text of a position.
pub open spec fn position_text(p: Position) -> Seq<char> {
    match p {
        Position::StartPos => "startpos"@,
        Position::Fen(f) => "fen "@ + fen_text(f),
    }
}

/// The text of a command.
pub open spec fn input_text(i: Input) -> Seq<char> {
    match i {
        Input::Uci => "uci"@,
        Input::Debug(on) => if on {
            "debug on"@
        } else {
            "debug false"@
        },
        Input::IsReady => "isready"@,
        Input::SetOption { name, value } => "setoption name "@ + name@ + match value {
            Some(v) => " value "@ + v@,
            None => Seq::empty(),
        },
        Input::Register(r) => "register "@ + r@,
        Input::UciNewGame => "ucinewgame"@,
        Input::Position { position, moves } => "position "@ + position_text(position) + " moves"@
            + moves_text(moves@),
        Input::Go(g) => "go "@ + join_spaces(go_parts(g.view())),
        Input::Stop => "stop"@,
        Input::PonderHit => "ponderhit"@,
        Input::Quit => "quit"@,
        Input::Repl => "repl"@,
        Input::Fuzz => "fuzz"@,
    }
}

/// The positions and moves of a command can be written.
pub open spec fn input_wf(i: Input) -> bool {
    match i {
        Input::Position { position, moves } => (position matches Position::Fen(f) ==> f.board.wf())
            && lans_wf(moves@),
        Input::Go(g) => go_wf(g.view()),
        _ => true,
    }
}

impl Position {
    /// The text of the position, as `position_text` says.
    pub fn to_text(&self) -> (s: String)
        requires
            self matches Position::Fen(f) ==> f.board.wf(),
        ensures
            s@ == position_text(*self),
    {
        match self {
            Position::StartPos => String::from_str("startpos"),
            Position::Fen(f) => {
                let mut s = String::from_str("fen ");
                let t = f.to_text();
                s.append(t.as_str());
                s
            },
        }
    }
}

impl<'a> Input<'a> {
    /// The text of the command, as `input_text` says.
    pub fn to_text(&self) -> (s: String)
        requires
            input_wf(*self),
        ensures
            s@ == input_text(*self),
    {
        let mut s = String::new();
        proof {
            reveal_strlit("");
        }
        match self {
            Input::Uci => s.append("uci"),
            Input::Debug(on) => {
                if *on {
                    s.append("debug on");
                } else {
                    s.append("debug false");
                }
            },
            Input::IsReady => s.append("isready"),
            Input::SetOption { name, value } => {
                s.append("setoption name ");
                s.append(name);
                match value {
                    Some(v) => {
                        s.append(" value ");
                        s.append(v);
                    },
                    None => {},
                }
            },
            Input::Register(r) => {
                s.append("register ");
                s.append(r);
            },
            Input::UciNewGame => s.append("ucinewgame"),
            Input::Position { position, moves } => {
                s.append("position ");
                let t = position.to_text();
                s.append(t.as_str());
                s.append(" moves");
                push_lans(&mut s, moves);
            },
            Input::Go(g) => {
                s.append("go ");
                let t = g.to_text();
                s.append(t.as_str());
            },
            Input::Stop => s.append("stop"),
            Input::PonderHit => s.append("ponderhit"),
            Input::Quit => s.append("quit"),
            Input::Repl => s.append("repl"),
            Input::Fuzz => s.append("fuzz"),
        }
        proof {
            assert(s@ =~= input_text(*self));
        }
        s
    }
}

} // verus!
