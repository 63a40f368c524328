//! Replies an engine sends over UCI, and their text.
use vstd::prelude::*;
use vstd::string::StringExecFns;
use crate::color::Color;
use crate::decimal::{decimal_text, push_decimal, push_signed, signed_text};
use crate::heuristics::Centipawn;
use crate::lan::{lan_text, Lan};

verus! {

/// Which identity an `id` reply gives.
#[derive(Debug, Clone, Copy, PartialEq, Eq, Hash, Structural)]
pub enum IdField {
    Name,
    Author,
}

/// A score in centipawns, or a mate in a number of moves (negative when
/// the engine gets mated).
#[derive(Debug, Clone, Copy, PartialEq, Eq, Hash, Structural)]
pub enum ScoreValue {
    Cp(i32),
    Mate(i32),
}

/// Whether a reported score is only a bound.
#[derive(Debug, Clone, Copy, PartialEq, Eq, Hash, Structural)]
pub enum ScoreBound {
    LowerBound,
    UpperBound,
}

/// A score as UCI reports it, from the side to move.
#[derive(Debug, Clone, Copy, PartialEq, Eq, Hash, Structural)]
pub struct Score {
    pub score: ScoreValue,
    pub bound: Option<ScoreBound>,
}

/// The kinds of engine options.
#[derive(Debug, Clone, Copy, PartialEq, Eq, Hash, Structural)]
pub enum OptionType {
    Check,
    Spin,
    Combo,
    Button,
    String,
}

/// The default value of an option.
#[derive(Debug, Clone, Copy, PartialEq, Eq, Hash)]
pub enum OptionValue {
    Bool(bool),
    Int(i64),
    Str(&'static str),
}

/// The values an option allows: a range, or a list of choices.
#[derive(Debug, Clone, PartialEq, Eq, Hash)]
pub enum Boundary {
    Boundary { min: i32, max: i32 },
    Var(Vec<&'static str>),
}

/// One item of an `info` reply. Times are in milliseconds; a move of `None`
/// is the null move.
#[derive(Debug, Clone, PartialEq, Eq, Hash)]
pub enum Info {
    Depth(u32),
    SelDepth(u32),
    Time(u64),
    Nodes(u32),
    Pv(Vec<Lan>),
    MultiPv(u32),
    Score(Score),
    CurrMove(Option<Lan>),
    CurrMoveNumber(u8),
    HashFull(u32),
    Nps(u32),
    TbHits(u32),
    SbHits(u32),
    CpuLoad(u32),
    String(String),
    Refutation(Vec<Option<Lan>>),
    CurrLine(Vec<Option<Lan>>),
}

/// A reply to the GUI.
#[derive(Debug, Clone, PartialEq, Eq, Hash)]
pub enum Output {
    Id { field: IdField, value: &'static str },
    UciOk,
    ReadyOk,
    BestMove { movement: Option<Lan>, ponder: Option<Lan> },
    Info(Vec<Info>),
    Option {
        name: &'static str,
        kind: OptionType,
        default: Option<OptionValue>,
        boundary: Option<Boundary>,
    },
}

impl Score {
    /// The score reported to the side to move: centipawns from its point of
    /// view; a win as mate in one, a lower bound for the winner and an upper
    /// bound for the loser.
    pub fn from_centipawn(centipawn: Centipawn, current_player: Color) -> (r: Score)
        requires
            centipawn matches Centipawn::Centipawn(cp) ==> cp > i32::MIN,
        ensures
            r == match centipawn {
                Centipawn::Centipawn(cp) => Score {
                    score: ScoreValue::Cp(
                        if current_player == Color::White {
                            cp as int
                        } else {
                            -cp
                        } as i32,
                    ),
                    bound: None,
                },
                Centipawn::Win(c) => if c == current_player {
                    Score { score: ScoreValue::Mate(1), bound: Some(ScoreBound::LowerBound) }
                } else {
                    Score { score: ScoreValue::Mate(-1i32), bound: Some(ScoreBound::UpperBound) }
                },
            },
    {
        match centipawn {
            Centipawn::Centipawn(centipawn) => {
                let centipawn = match current_player {
                    Color::White => centipawn,
                    Color::Black => -centipawn,
                };
                Score { score: ScoreValue::Cp(centipawn), bound: None }
            },
            Centipawn::Win(color) => {
                if color == current_player {
                    Score { score: ScoreValue::Mate(1), bound: Some(ScoreBound::LowerBound) }
                } else {
                    Score { score: ScoreValue::Mate(-1), bound: Some(ScoreBound::UpperBound) }
                }
            },
        }
    }
}

/// The text of a move that may be the null move (`0000`).
pub open spec fn nullable_text(m: Option<Lan>) -> Seq<char> {
    match m {
        Some(l) => lan_text(l),
        None => "0000"@,
    }
}

/// The moves, each after a space.
pub open spec fn moves_text(v: Seq<Lan>) -> Seq<char>
    decreases v.len(),
{
    if v.len() == 0 {
        Seq::empty()
    } else {
        moves_text(v.drop_last()) + seq![' '] + lan_text(v.last())
    }
}

/// The moves that may be null, each after a space.
pub open spec fn nullable_moves_text(v: Seq<Option<Lan>>) -> Seq<char>
    decreases v.len(),
{
    if v.len() == 0 {
        Seq::empty()
    } else {
        nullable_moves_text(v.drop_last()) + seq![' '] + nullable_text(v.last())
    }
}

/// The text of a score.
pub open spec fn score_text(s: Score) -> Seq<char> {
    (match s.score {
        ScoreValue::Cp(cp) => "cp "@ + signed_text(cp as int),
        ScoreValue::Mate(m) => "mate "@ + signed_text(m as int),
    }) + (match s.bound {
        Some(ScoreBound::LowerBound) => " lowerbound"@,
        Some(ScoreBound::UpperBound) => " upperbound"@,
        None => Seq::empty(),
    })
}

/// The text of an info item.
pub open spec fn info_text(i: Info) -> Seq<char> {
    match i {
        Info::Depth(d) => "depth "@ + decimal_text(d as nat),
        Info::SelDepth(d) => "seldepth "@ + decimal_text(d as nat),
        Info::Time(t) => "time "@ + decimal_text(t as nat),
        Info::Nodes(n) => "node "@ + decimal_text(n as nat),
        Info::Pv(moves) => "pv"@ + moves_text(moves@),
        Info::MultiPv(r) => "multipv "@ + decimal_text(r as nat),
        Info::Score(s) => "score "@ + score_text(s),
        Info::CurrMove(m) => "currmove "@ + nullable_text(m),
        Info::CurrMoveNumber(n) => "currmovenumber "@ + decimal_text(n as nat),
        Info::HashFull(p) => "hashfull "@ + decimal_text(p as nat),
        Info::Nps(n) => "nps "@ + decimal_text(n as nat),
        Info::TbHits(h) => "tbhits "@ + decimal_text(h as nat),
        Info::SbHits(h) => "sbhits "@ + decimal_text(h as nat),
        Info::CpuLoad(p) => "cpuload "@ + decimal_text(p as nat),
        Info::String(s) => "string "@ + s@,
        Info::Refutation(moves) => "refutation"@ + nullable_moves_text(moves@),
        Info::CurrLine(moves) => "currline"@ + nullable_moves_text(moves@),
    }
}

/// The info items, each after a space.
pub open spec fn infos_text(v: Seq<Info>) -> Seq<char>
    decreases v.len(),
{
    if v.len() == 0 {
        Seq::empty()
    } else {
        infos_text(v.drop_last()) + seq![' '] + info_text(v.last())
    }
}

/// The text of an option kind.
pub open spec fn option_type_text(k: OptionType) -> Seq<char> {
    match k {
        OptionType::Check => "check"@,
        OptionType::Spin => "spin"@,
        OptionType::Combo => "combo"@,
        OptionType::Button => "button"@,
        OptionType::String => "string"@,
    }
}

/// The text of an option value.
pub open spec fn option_value_text(v: OptionValue) -> Seq<char> {
    match v {
        OptionValue::Bool(b) => if b {
            "true"@
        } else {
            "false"@
        },
        OptionValue::Int(i) => signed_text(i as int),
        OptionValue::Str(s) => s@,
    }
}

/// The choices of an option, each as `var` and the choice, with nothing between.
pub open spec fn vars_text(v: Seq<&'static str>) -> Seq<char>
    decreases v.len(),
{
    if v.len() == 0 {
        Seq::empty()
    } else {
        vars_text(v.drop_last()) + "var "@ + v.last()@
    }
}

/// The text of the values an option allows.
pub open spec fn boundary_text(b: Boundary) -> Seq<char> {
    match b {
        Boundary::Boundary { min, max } => "min "@ + signed_text(min as int) + " max "@ + signed_text(
            max as int,
        ),
        Boundary::Var(vars) => vars_text(vars@),
    }
}

/// Every move of a list is a move between squares of the board.
pub open spec fn lans_wf(v: Seq<Lan>) -> bool {
    forall|i: int| 0 <= i < v.len() ==> (#[trigger] v[i]).wf()
}

/// Every move of a list that is not null is a move between squares of the board.
pub open spec fn nullable_lans_wf(v: Seq<Option<Lan>>) -> bool {
    forall|i: int| 0 <= i < v.len() ==> ((#[trigger] v[i]) matches Some(l) ==> l.wf())
}

/// The moves of an info item are moves between squares of the board.
pub open spec fn info_wf(i: Info) -> bool {
    match i {
        Info::Pv(moves) => lans_wf(moves@),
        Info::CurrMove(m) => (m matches Some(l) ==> l.wf()),
        Info::Refutation(moves) => nullable_lans_wf(moves@),
        Info::CurrLine(moves) => nullable_lans_wf(moves@),
        _ => true,
    }
}

/// The moves of a reply are moves between squares of the board.
pub open spec fn output_wf(o: Output) -> bool {
    match o {
        Output::BestMove { movement, ponder } => (movement matches Some(l) ==> l.wf()) && (
        ponder matches Some(l) ==> l.wf()),
        Output::Info(infos) => forall|i: int| 0 <= i < infos@.len() ==> info_wf(#[trigger] infos@[i]),
        _ => true,
    }
}

/// The text of a reply, one line without its end.
pub open spec fn output_text(o: Output) -> Seq<char> {
    match o {
        Output::Id { field, value } => "id "@ + match field {
            IdField::Name => "name"@,
            IdField::Author => "author"@,
        } + " "@ + value@,
        Output::UciOk => "uciok"@,
        Output::ReadyOk => "readyok"@,
        Output::BestMove { movement, ponder } => "bestmove "@ + nullable_text(movement) + match ponder {
            Some(p) => " ponder "@ + lan_text(p),
            None => Seq::empty(),
        },
        Output::Info(infos) => "info"@ + infos_text(infos@),
        Output::Option { name, kind, default, boundary } => "option name "@ + name@ + " type "@
            + option_type_text(kind) + match default {
            Some(v) => " default "@ + option_value_text(v),
            None => Seq::empty(),
        } + match boundary {
            Some(b) => " "@ + boundary_text(b),
            None => Seq::empty(),
        },
    }
}

/// Appends a move that may be the null move.
fn push_nullable(s: &mut String, m: Option<Lan>)
    requires
        m matches Some(l) ==> l.wf(),
    ensures
        final(s)@ == old(s)@ + nullable_text(m),
{
    match m {
        Some(l) => {
            let t = l.to_text();
            s.append(t.as_str());
        },
        None => s.append("0000"),
    }
}

/// Appends the moves, each after a space.
fn push_moves(s: &mut String, v: &Vec<Lan>)
    requires
        lans_wf(v@),
    ensures
        final(s)@ == old(s)@ + moves_text(v@),
{
    let mut i: usize = 0;
    while i < v.len()
        invariant
            0 <= i <= v@.len(),
            lans_wf(v@),
            s@ == old(s)@ + moves_text(v@.subrange(0, i as int)),
        decreases v@.len() - i,
    {
        s.append(" ");
        proof {
            reveal_strlit(" ");
        }
        let t = v[i].to_text();
        s.append(t.as_str());
        proof {
            let w = v@.subrange(0, i + 1);
            assert(w.drop_last() =~= v@.subrange(0, i as int));
            assert(s@ =~= old(s)@ + moves_text(w));
        }
        i = i + 1;
    }
    proof {
        assert(v@.subrange(0, v@.len() as int) =~= v@);
    }
}

/// Appends the moves that may be null, each after a space.
fn push_nullable_moves(s: &mut String, v: &Vec<Option<Lan>>)
    requires
        nullable_lans_wf(v@),
    ensures
        final(s)@ == old(s)@ + nullable_moves_text(v@),
{
    let mut i: usize = 0;
    while i < v.len()
        invariant
            0 <= i <= v@.len(),
            nullable_lans_wf(v@),
            s@ == old(s)@ + nullable_moves_text(v@.subrange(0, i as int)),
        decreases v@.len() - i,
    {
        s.append(" ");
        proof {
            reveal_strlit(" ");
        }
        push_nullable(s, v[i]);
        proof {
            let w = v@.subrange(0, i + 1);
            assert(w.drop_last() =~= v@.subrange(0, i as int));
            assert(s@ =~= old(s)@ + nullable_moves_text(w));
        }
        i = i + 1;
    }
    proof {
        assert(v@.subrange(0, v@.len() as int) =~= v@);
    }
}

/// Appends the text of a score.
fn push_score(s: &mut String, sc: Score)
    ensures
        final(s)@ == old(s)@ + score_text(sc),
{
    match sc.score {
        ScoreValue::Cp(cp) => {
            s.append("cp ");
            push_signed(s, cp as i64);
        },
        ScoreValue::Mate(m) => {
            s.append("mate ");
            push_signed(s, m as i64);
        },
    }
    match sc.bound {
        Some(ScoreBound::LowerBound) => s.append(" lowerbound"),
        Some(ScoreBound::UpperBound) => s.append(" upperbound"),
        None => {},
    }
    proof {
        assert(final(s)@ =~= old(s)@ + score_text(sc));
    }
}

impl Info {
    /// Appends the text of the item.
    fn push_text(&self, s: &mut String)
        requires
            info_wf(*self),
        ensures
            final(s)@ == old(s)@ + info_text(*self),
    {
        match self {
            Info::Depth(d) => {
                s.append("depth ");
                push_decimal(s, *d as u64);
            },
            Info::SelDepth(d) => {
                s.append("seldepth ");
                push_decimal(s, *d as u64);
            },
            Info::Time(t) => {
                s.append("time ");
                push_decimal(s, *t);
            },
            Info::Nodes(n) => {
                s.append("node ");
                push_decimal(s, *n as u64);
            },
            Info::Pv(moves) => {
                s.append("pv");
                push_moves(s, moves);
            },
            Info::MultiPv(r) => {
                s.append("multipv ");
                push_decimal(s, *r as u64);
            },
            Info::Score(sc) => {
                s.append("score ");
                push_score(s, *sc);
            },
            Info::CurrMove(m) => {
                s.append("currmove ");
                push_nullable(s, *m);
            },
            Info::CurrMoveNumber(n) => {
                s.append("currmovenumber ");
                push_decimal(s, *n as u64);
            },
            Info::HashFull(p) => {
                s.append("hashfull ");
                push_decimal(s, *p as u64);
            },
            Info::Nps(n) => {
                s.append("nps ");
                push_decimal(s, *n as u64);
            },
            Info::TbHits(h) => {
                s.append("tbhits ");
                push_decimal(s, *h as u64);
            },
            Info::SbHits(h) => {
                s.append("sbhits ");
                push_decimal(s, *h as u64);
            },
            Info::CpuLoad(p) => {
                s.append("cpuload ");
                push_decimal(s, *p as u64);
            },
            Info::String(text) => {
                s.append("string ");
                s.append(text.as_str());
            },
            Info::Refutation(moves) => {
                s.append("refutation");
                push_nullable_moves(s, moves);
            },
            Info::CurrLine(moves) => {
                s.append("currline");
                push_nullable_moves(s, moves);
            },
        }
        proof {
            assert(final(s)@ =~= old(s)@ + info_text(*self));
        }
    }
}

/// Appends the choices of an option.
fn push_vars(s: &mut String, v: &Vec<&'static str>)
    ensures
        final(s)@ == old(s)@ + vars_text(v@),
{
    let mut i: usize = 0;
    while i < v.len()
        invariant
            0 <= i <= v@.len(),
            s@ == old(s)@ + vars_text(v@.subrange(0, i as int)),
        decreases v@.len() - i,
    {
        s.append("var ");
        s.append(v[i]);
        proof {
            let w = v@.subrange(0, i + 1);
            assert(w.drop_last() =~= v@.subrange(0, i as int));
            assert(s@ =~= old(s)@ + vars_text(w));
        }
        i = i + 1;
    }
    proof {
        assert(v@.subrange(0, v@.len() as int) =~= v@);
    }
}

/// Appends the info items, each after a space.
fn push_infos(s: &mut String, infos: &Vec<Info>)
    requires
        forall|k: int| 0 <= k < infos@.len() ==> info_wf(#[trigger] infos@[k]),
    ensures
        final(s)@ == old(s)@ + infos_text(infos@),
{
    let mut i: usize = 0;
    while i < infos.len()
        invariant
            0 <= i <= infos@.len(),
            forall|k: int| 0 <= k < infos@.len() ==> info_wf(#[trigger] infos@[k]),
            s@ == old(s)@ + infos_text(infos@.subrange(0, i as int)),
        decreases infos@.len() - i,
    {
        s.append(" ");
        proof {
            reveal_strlit(" ");
        }
        infos[i].push_text(s);
        proof {
            let w = infos@.subrange(0, i + 1);
            assert(w.drop_last() =~= infos@.subrange(0, i as int));
            assert(s@ =~= old(s)@ + infos_text(w));
        }
        i = i + 1;
    }
    proof {
        assert(infos@.subrange(0, infos@.len() as int) =~= infos@);
    }
}

/// Appends the text of an option value.
fn push_option_value(s: &mut String, v: OptionValue)
    ensures
        final(s)@ == old(s)@ + option_value_text(v),
{
    match v {
        OptionValue::Bool(b) => {
            if b {
                s.append("true");
            } else {
                s.append("false");
            }
        },
        OptionValue::Int(i) => push_signed(s, i),
        OptionValue::Str(t) => s.append(t),
    }
}

/// Appends the text of the values an option allows.
fn push_boundary(s: &mut String, b: &Boundary)
    ensures
        final(s)@ == old(s)@ + boundary_text(*b),
{
    match b {
        Boundary::Boundary { min, max } => {
            s.append("min ");
            push_signed(s, *min as i64);
            s.append(" max ");
            push_signed(s, *max as i64);
            proof {
                assert(final(s)@ =~= old(s)@ + boundary_text(*b));
            }
        },
        Boundary::Var(vars) => push_vars(s, vars),
    }
}

/// Appends the text of an option reply.
fn push_option(
    s: &mut String,
    name: &'static str,
    kind: OptionType,
    default: Option<OptionValue>,
    boundary: &Option<Boundary>,
)
    ensures
        final(s)@ == old(s)@ + output_text(
            Output::Option { name, kind, default, boundary: *boundary },
        ),
{
    s.append("option name ");
    s.append(name);
    s.append(" type ");
    match kind {
        OptionType::Check => s.append("check"),
        OptionType::Spin => s.append("spin"),
        OptionType::Combo => s.append("combo"),
        OptionType::Button => s.append("button"),
        OptionType::String => s.append("string"),
    }
    let ghost mid = s@;
    match default {
        Some(v) => {
            s.append(" default ");
            push_option_value(s, v);
        },
        None => {},
    }
    let ghost mid2 = s@;
    match boundary {
        Some(b) => {
            s.append(" ");
            push_boundary(s, b);
        },
        None => {},
    }
    proof {
        reveal_strlit("");
        assert(final(s)@ =~= old(s)@ + output_text(Output::Option { name, kind, default, boundary: *boundary }));
    }
}

impl Output {
    /// The text of the reply, as `output_text` says.
    pub fn to_text(&self) -> (s: String)
        requires
            output_wf(*self),
        ensures
            s@ == output_text(*self),
    {
        let mut s = String::new();
        match self {
            Output::Id { field, value } => {
                s.append("id ");
                match field {
                    IdField::Name => s.append("name"),
                    IdField::Author => s.append("author"),
                }
                s.append(" ");
                s.append(value);
            },
            Output::UciOk => s.append("uciok"),
            Output::ReadyOk => s.append("readyok"),
            Output::BestMove { movement, ponder } => {
                s.append("bestmove ");
                push_nullable(&mut s, *movement);
                match ponder {
                    Some(p) => {
                        s.append(" ponder ");
                        let t = p.to_text();
                        s.append(t.as_str());
                    },
                    None => {},
                }
            },
            Output::Info(infos) => {
                s.append("info");
                push_infos(&mut s, infos);
            },
            Output::Option { name, kind, default, boundary } => {
                push_option(&mut s, name, *kind, *default, boundary);
            },
        }
        proof {
            assert(s@ =~= output_text(*self));
        }
        s
    }
}

} // verus!
