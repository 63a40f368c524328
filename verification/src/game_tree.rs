//! The search tree of the engine: its nodes, their expansion into a child
//! per legal move, the alpha-beta search over them, and the best line.
use vstd::prelude::*;
use crate::board::{Board, Move};
use crate::color::Color;
use crate::end_state::EndState;
use crate::hashable::HashableBoard;
use crate::heuristics::{end_score, lemma_score_not_below, lemma_score_order, score_less, Estimated, Score};
use crate::lan::{lan_pair_of, lemma_listed_readable, lemma_play_unique, listed, play, playable, played, Lan};
use crate::coord::Coord;
use crate::rules::{apply_slots, dead_position, has_legal_move, legal, piece_at};
use crate::table::{Table, TableValue};
use std::sync::atomic::AtomicBool;

verus! {

/// The larger of two scores for white; the second when they are level.
pub open spec fn score_max(a: Score, b: Score) -> Score {
    if score_less(b, a) {
        a
    } else {
        b
    }
}

/// The smaller of two scores for white; the first when they are level.
pub open spec fn score_min(a: Score, b: Score) -> Score {
    if score_less(b, a) {
        b
    } else {
        a
    }
}

/// The window and best score of a node whose side to move is
/// `current_player`: white raises `alpha` and its score, black lowers `beta`
/// and its score.
#[derive(Debug, Clone, Copy)]
pub struct AlphaBetaState {
    pub current_player: Color,
    pub alpha: Score,
    pub beta: Score,
    pub score: Score,
}

/// The state after a child's score is taken in, and whether the rest of the
/// children can be cut off.
pub open spec fn alpha_beta_step(s: AlphaBetaState, score: Score) -> (AlphaBetaState, bool) {
    match s.current_player {
        Color::White => {
            let best = score_max(s.score, score);
            if !score_less(best, s.beta) {
                (AlphaBetaState { score: best, ..s }, true)
            } else {
                (AlphaBetaState { score: best, alpha: score_max(s.alpha, best), ..s }, false)
            }
        },
        Color::Black => {
            let best = score_min(s.score, score);
            if !score_less(s.alpha, best) {
                (AlphaBetaState { score: best, ..s }, true)
            } else {
                (AlphaBetaState { score: best, beta: score_min(s.beta, best), ..s }, false)
            }
        },
    }
}

/// Taking in a child's score never works against the side to move: white's
/// score and `alpha` only rise and `beta` stays; black's score and `beta`
/// only fall and `alpha` stays. The node's score is at least as good for
/// its side as the child's, and the cut-off comes exactly when the score
/// reaches the other bound.
pub proof fn lemma_alpha_beta_step(s: AlphaBetaState, score: Score)
    ensures
        ({
            let (t, cut) = alpha_beta_step(s, score);
            &&& t.current_player == s.current_player
            &&& s.current_player == Color::White ==> {
                &&& !score_less(t.score, s.score)
                &&& !score_less(t.score, score)
                &&& !score_less(t.alpha, s.alpha)
                &&& t.beta == s.beta
                &&& cut == !score_less(t.score, s.beta)
            }
            &&& s.current_player == Color::Black ==> {
                &&& !score_less(s.score, t.score)
                &&& !score_less(score, t.score)
                &&& !score_less(s.beta, t.beta)
                &&& t.alpha == s.alpha
                &&& cut == !score_less(s.alpha, t.score)
            }
        }),
{
    lemma_score_order(s.score, score, s.score);
    lemma_score_order(score, s.score, score);
    lemma_score_order(s.alpha, score_max(s.score, score), s.alpha);
    lemma_score_order(score_max(s.score, score), s.alpha, score_max(s.score, score));
    lemma_score_order(s.beta, score_min(s.score, score), s.beta);
    lemma_score_order(score_min(s.score, score), s.beta, score_min(s.score, score));
}

impl AlphaBetaState {
    /// A node with no child scored yet: its score starts at the other side's win.
    pub fn new(current_player: Color, alpha: Score, beta: Score) -> (r: AlphaBetaState)
        ensures
            r.current_player == current_player,
            r.alpha == alpha,
            r.beta == beta,
            r.score == Score::Win(current_player.other()),
    {
        AlphaBetaState {
            current_player,
            alpha,
            beta,
            score: match current_player {
                Color::White => Score::black_wins(),
                Color::Black => Score::white_wins(),
            },
        }
    }

    /// Takes in a child's score, as `alpha_beta_step` says; tells whether the
    /// remaining children can be cut off.
    pub fn set(&mut self, score: Score) -> (r: bool)
        ensures
            (*final(self), r) == alpha_beta_step(*old(self), score),
    {
        match self.current_player {
            Color::White => {
                if score.is_less(self.score) {
                } else {
                    self.score = score;
                }
                if !self.score.is_less(self.beta) {
                    return true;
                }
                if self.score.is_less(self.alpha) {
                } else {
                    self.alpha = self.score;
                }
            },
            Color::Black => {
                if score.is_less(self.score) {
                    self.score = score;
                }
                if !self.alpha.is_less(self.score) {
                    return true;
                }
                if self.score.is_less(self.beta) {
                    self.beta = self.score;
                }
            },
        }
        false
    }
}


/// `n` is the board after the move `m` is played on `b`.
pub open spec fn moved_to(b: Board, m: Move, n: Board) -> bool {
    &&& n.pieces@ == apply_slots(b.pieces@, b.current_player, m)
    &&& n.current_player == b.current_player.other()
    &&& n.castling_right == m.castling_right
    &&& n.en_passant_target == m.en_passant_target
}

/// A move leaves one board only: two boards that both show `b` after `m`
/// (the same slots, side to move, castling rights and en passant target) are
/// equal. So `Board::clone_and_move` gives the board that `Board::move_piece`
/// leaves, as their contracts state the same four fields.
pub proof fn lemma_one_board_after_move(b: Board, m: Move, r: Board, c: Board)
    requires
        moved_to(b, m, r),
        moved_to(b, m, c),
    ensures
        r == c,
{
    assert(r.pieces =~= c.pieces);
}

/// The game goes on from `b`: the position is not dead and the side to move
/// has a legal move.
pub open spec fn ongoing(b: Board) -> bool {
    !dead_position(b.pieces@) && has_legal_move(b)
}

/// What a node of the search tree holds: a position not yet expanded, a
/// position with a subtree for each of its moves, or the end of the game.
#[derive(Debug)]
pub enum Data {
    Board(Box<Board>),
    Children { board: Box<Board>, children: Vec<(Lan, Option<Lan>, GameTreeInner)> },
    End(EndState),
}

/// A node of the search tree and the score its last search gave it.
#[derive(Debug)]
pub struct GameTreeInner {
    pub data: Data,
    pub score: Option<Score>,
}

/// A child of the node at `b`: the texts of a move that `valid_moves` lists,
/// and the subtree of the position after it.
pub open spec fn branch_of(b: Board, branch: (Lan, Option<Lan>, GameTreeInner)) -> bool {
    exists|m: Move|
        #[trigger] listed(b, m) && lan_pair_of(b, m) == (branch.0, branch.1) && branch.2.reached_by(b, m)
}

/// `branch` is the child of the node at `b` for the move `m`: named by the
/// move's texts and holding the position after it.
pub open spec fn branch_for(b: Board, branch: (Lan, Option<Lan>, GameTreeInner), m: Move) -> bool {
    lan_pair_of(b, m) == (branch.0, branch.1) && branch.2.reached_by(b, m)
}

/// Every move that `valid_moves` lists on `b` has a child.
pub open spec fn covers(b: Board, children: Seq<(Lan, Option<Lan>, GameTreeInner)>) -> bool {
    forall|m: Move| #[trigger] listed(b, m) ==> exists|i: int| 0 <= i < children.len() && #[trigger] branch_for(b, children[i], m)
}

/// Two children for the same move and position, whatever was searched below them.
pub open spec fn same_branch(a: (Lan, Option<Lan>, GameTreeInner), b: (Lan, Option<Lan>, GameTreeInner)) -> bool {
    a.0 == b.0 && a.1 == b.1 && a.2.position() == b.2.position()
}

/// The first moves along the tree: the first child's first text, then the
/// first moves below it.
pub open spec fn line_of(t: GameTreeInner) -> Seq<Lan>
    decreases t,
{
    match t.data {
        Data::Children { children, .. } => if children@.len() > 0 {
            seq![children@[0].0] + line_of(children@[0].2)
        } else {
            Seq::empty()
        },
        _ => Seq::empty(),
    }
}

/// `line` is played from `b`: each text is the first text of a move that
/// `valid_moves` lists on the board reached so far.
pub open spec fn legal_line(b: Board, line: Seq<Lan>) -> bool
    decreases line.len(),
{
    line.len() == 0 || exists|m: Move|
        #[trigger] listed(b, m) && lan_pair_of(b, m).0 == line[0] && (line.len() == 1 || exists|n: Board|
            moved_to(b, m, n) && legal_line(n, line.drop_first()))
}

/// Neither score is below the other.
pub open spec fn level(a: Score, b: Score) -> bool {
    !score_less(a, b) && !score_less(b, a)
}

/// The node has been searched through its children: its score is level with
/// the score of its first child, or, where that child has no score, is the
/// other side's win.
pub open spec fn scored_by_first_child(t: GameTreeInner) -> bool {
    match t.data {
        Data::Children { board, children } => {
            &&& children@.len() > 0
            &&& t.score is Some
            &&& match children@[0].2.score {
                Some(s) => level(s, t.score->Some_0),
                None => t.score->Some_0 == Score::Win(board.current_player.other()),
            }
        },
        _ => false,
    }
}

/// With score `s` the side `player` reaches a cut-off in the window from
/// `alpha` to `beta`: white's score is not below `beta`, black's not above
/// `alpha`.
pub open spec fn cut_off(player: Color, s: Score, alpha: Score, beta: Score) -> bool {
    match player {
        Color::White => !score_less(s, beta),
        Color::Black => !score_less(alpha, s),
    }
}

/// The first `n` children, at least one, are those the search took in:
/// they stand best first for `player`, none of them is better for `player`
/// than the node's score, and children are left after them only where the
/// node's score reached a cut-off.
pub open spec fn best_first_prefix(
    player: Color,
    children: Seq<(Lan, Option<Lan>, GameTreeInner)>,
    score: Score,
    alpha: Score,
    beta: Score,
    n: int,
) -> bool {
    &&& 1 <= n <= children.len()
    &&& forall|i: int, j: int|
        0 <= i < j < n ==> !ranks_before(player, #[trigger] children[j].2.score, #[trigger] children[i].2.score)
    &&& forall|i: int| 0 <= i < n ==> !ranks_before(player, #[trigger] children[i].2.score, Some(score))
    &&& n < children.len() ==> cut_off(player, score, alpha, beta)
}

/// The node has been searched in the window from `alpha` to `beta`: its
/// score is level with its first child's (or is the other side's win where
/// that child has no score), and the children it took in come first, best
/// first, none better than the node's score.
pub open spec fn searched_in(t: GameTreeInner, alpha: Score, beta: Score) -> bool {
    &&& scored_by_first_child(t)
    &&& match t.data {
        Data::Children { board, children } => exists|n: int|
            #[trigger] best_first_prefix(board.current_player, children@, t.score->Some_0, alpha, beta, n),
        _ => false,
    }
}

/// A node no search has reached: it has no score and is not expanded.
pub open spec fn fresh(t: GameTreeInner) -> bool {
    t.score is None && t.data !is Children
}

/// The table holds the score `s` for the grid `h`.
pub open spec fn stored(e: Map<HashableBoard, TableValue>, h: HashableBoard, s: Score) -> bool {
    e.contains_key(h) && e[h].transposition == Some(s)
}

/// The grids the table marks as lying on the line being searched.
pub open spec fn marks(e: Map<HashableBoard, TableValue>) -> Set<HashableBoard> {
    Set::new(|h: HashableBoard| e.contains_key(h) && e[h].repetition)
}

/// `i` indexes a sequence of `len` items.
pub open spec fn index_in(i: int, len: int) -> bool {
    0 <= i < len
}

/// Some expanded node of the tree has the grid `h` and the score `s`.
pub open spec fn in_tree(t: GameTreeInner, h: HashableBoard, s: Score) -> bool
    decreases t,
{
    match t.data {
        Data::Children { board, children } => (shows_grid(*board, h) && t.score == Some(s)) || exists|i: int|
            #[trigger] index_in(i, children@.len() as int) && in_tree(children@[i].2, h, s),
        _ => false,
    }
}

/// The scores a search can have read from the table: those the table held
/// when it began, and those of the positions the tree expanded.
pub open spec fn known_after(e: Map<HashableBoard, TableValue>, t: GameTreeInner) -> Set<(HashableBoard, Score)> {
    Set::new(|p: (HashableBoard, Score)| stored(e, p.0, p.1) || in_tree(t, p.0, p.1))
}

/// The grids of `path` and the grid of the board `b`.
pub open spec fn with_grid(path: Set<HashableBoard>, b: Board) -> Set<HashableBoard> {
    Set::new(|h: HashableBoard| path.contains(h) || shows_grid(b, h))
}

/// What a search that met the grid `h` in the table gives a node: a score
/// that the table held for it (among `known`), or, for a position on the
/// line being searched (among `path`), no score, or where `kept`, the score
/// it had.
pub open spec fn looked_up(
    h: HashableBoard,
    score: Option<Score>,
    known: Set<(HashableBoard, Score)>,
    path: Set<HashableBoard>,
    kept: bool,
) -> bool {
    ||| score matches Some(s) && known.contains((h, s))
    ||| path.contains(h) && (score is None || kept)
}

/// `score` is an estimate that `estimate` gives for the board `b`.
pub open spec fn estimated_by<E: Fn(&Board) -> Estimated>(b: Board, score: Option<Score>, estimate: &E) -> bool {
    match score {
        Some(Score::Estimated(x)) => call_ensures(estimate, (&b,), x),
        _ => false,
    }
}

/// `n` counts at least one of `len` children.
pub open spec fn within(n: int, len: int) -> bool {
    1 <= n <= len
}

/// The tree was searched `d` plies deep, with `estimate` scoring the
/// positions where the search stopped, `known` the scores the table can have
/// given, and `path` the grids on the line above the node. Where `kept` is
/// false the search began on nodes that no search had reached; where it is
/// true, nodes may keep the scores of an earlier search where this one
/// stopped:
/// - a finished game has the score of its end;
/// - a position met in the table took a score the table held for its grid,
///   or, lying on the line above, no score (or, where `kept`, the one it had);
/// - an unexpanded position was otherwise a leaf (`d` is 0) scored by
///   `estimate` (or, where `kept`, keeping its score);
/// - an expanded position has a score, and its first `n` children, at least
///   one, were searched `d - 1` plies deep below it, the rest not reached at
///   all where not `kept`; where `kept`, it may also be a leaf keeping its score.
pub open spec fn searched_to<E: Fn(&Board) -> Estimated>(
    t: GameTreeInner,
    d: int,
    known: Set<(HashableBoard, Score)>,
    path: Set<HashableBoard>,
    estimate: &E,
    kept: bool,
) -> bool
    decreases t,
{
    match t.data {
        Data::End(e) => match t.score {
            Some(s) => end_score(e, s),
            None => false,
        },
        Data::Board(b) => (exists|h: HashableBoard|
            shows_grid(*b, h) && #[trigger] looked_up(h, t.score, known, path, kept)) || (d == 0 && (estimated_by(
            *b,
            t.score,
            estimate,
        ) || (kept && t.score is Some))),
        Data::Children { board, children } => {
            ||| {
                &&& d >= 1
                &&& t.score is Some
                &&& exists|n: int|
                    #[trigger] within(n, children@.len() as int) && (forall|i: int|
                        0 <= i < n ==> searched_to(
                            (#[trigger] children@[i]).2,
                            d - 1,
                            known,
                            with_grid(path, *board),
                            estimate,
                            kept,
                        )) && (!kept ==> forall|i: int| n <= i < children@.len() ==> fresh((#[trigger] children@[i]).2))
            }
            ||| kept && d == 0 && t.score is Some
            ||| kept && exists|h: HashableBoard| shows_grid(*board, h) && #[trigger] looked_up(h, t.score, known, path, kept)
        },
    }
}

/// What the table can have given, and the line above, only grow; and a
/// search from fresh nodes is also one that may keep scores.
proof fn lemma_searched_to_grows<E: Fn(&Board) -> Estimated>(
    t: GameTreeInner,
    d: int,
    known: Set<(HashableBoard, Score)>,
    path: Set<HashableBoard>,
    known2: Set<(HashableBoard, Score)>,
    path2: Set<HashableBoard>,
    estimate: &E,
    kept: bool,
    kept2: bool,
)
    requires
        searched_to(t, d, known, path, estimate, kept),
        known.subset_of(known2),
        path.subset_of(path2),
        kept ==> kept2,
    ensures
        searched_to(t, d, known2, path2, estimate, kept2),
    decreases t,
{
    match t.data {
        Data::Children { board, children } => {
            assert(with_grid(path, *board).subset_of(with_grid(path2, *board)));
            if d >= 1 && t.score is Some && exists|n: int|
                #[trigger] within(n, children@.len() as int) && (forall|i: int|
                    0 <= i < n ==> searched_to(
                        (#[trigger] children@[i]).2,
                        d - 1,
                        known,
                        with_grid(path, *board),
                        estimate,
                        kept,
                    )) && (!kept ==> forall|i: int| n <= i < children@.len() ==> fresh((#[trigger] children@[i]).2)) {
                let n = choose|n: int|
                    #[trigger] within(n, children@.len() as int) && (forall|i: int|
                        0 <= i < n ==> searched_to(
                            (#[trigger] children@[i]).2,
                            d - 1,
                            known,
                            with_grid(path, *board),
                            estimate,
                            kept,
                        )) && (!kept ==> forall|i: int| n <= i < children@.len() ==> fresh((#[trigger] children@[i]).2));
                assert forall|i: int| 0 <= i < n implies searched_to(
                    (#[trigger] children@[i]).2,
                    d - 1,
                    known2,
                    with_grid(path2, *board),
                    estimate,
                    kept2,
                ) by {
                    lemma_searched_to_grows(
                        children@[i].2,
                        d - 1,
                        known,
                        with_grid(path, *board),
                        known2,
                        with_grid(path2, *board),
                        estimate,
                        kept,
                        kept2,
                    );
                }
                assert(within(n, children@.len() as int));
            } else if kept && exists|h: HashableBoard|
                shows_grid(*board, h) && #[trigger] looked_up(h, t.score, known, path, kept) {
                let h = choose|h: HashableBoard| shows_grid(*board, h) && #[trigger] looked_up(h, t.score, known, path, kept);
                assert(looked_up(h, t.score, known2, path2, kept2));
            }
        },
        Data::Board(b) => {
            if exists|h: HashableBoard| shows_grid(*b, h) && #[trigger] looked_up(h, t.score, known, path, kept) {
                let h = choose|h: HashableBoard| shows_grid(*b, h) && #[trigger] looked_up(h, t.score, known, path, kept);
                assert(looked_up(h, t.score, known2, path2, kept2));
            }
        },
        _ => {},
    }
}

/// The scores the table held when a search began, and those of the
/// positions the children searched so far expanded.
spec fn known_from(e: Map<HashableBoard, TableValue>, cs: Seq<(Lan, Option<Lan>, GameTreeInner)>) -> Set<
    (HashableBoard, Score),
> {
    Set::new(
        |p: (HashableBoard, Score)|
            stored(e, p.0, p.1) || exists|k: int| 0 <= k < cs.len() && #[trigger] in_tree(cs[k].2, p.0, p.1),
    )
}

/// An expanded node holds what its children expanded.
proof fn lemma_in_tree_child(t: GameTreeInner, i: int, h: HashableBoard, s: Score)
    requires
        t.data matches Data::Children { children, .. } && 0 <= i < children@.len() && in_tree(children@[i].2, h, s),
    ensures
        in_tree(t, h, s),
{
    match t.data {
        Data::Children { board, children } => {
            assert(index_in(i, children@.len() as int) && in_tree(children@[i].2, h, s));
        },
        _ => {},
    }
}

/// Searching one more child only adds to what the children expanded.
proof fn lemma_known_from_push(
    e: Map<HashableBoard, TableValue>,
    cs: Seq<(Lan, Option<Lan>, GameTreeInner)>,
    c: (Lan, Option<Lan>, GameTreeInner),
)
    ensures
        known_from(e, cs).subset_of(known_from(e, cs.push(c))),
        forall|h: HashableBoard, s: Score| in_tree(c.2, h, s) ==> #[trigger] known_from(e, cs.push(c)).contains((h, s)),
{
    let cs2 = cs.push(c);
    assert forall|p: (HashableBoard, Score)| known_from(e, cs).contains(p) implies known_from(e, cs2).contains(p) by {
        if !stored(e, p.0, p.1) {
            let k = choose|k: int| 0 <= k < cs.len() && #[trigger] in_tree(cs[k].2, p.0, p.1);
            assert(cs2[k] == cs[k]);
        }
    }
    assert forall|h: HashableBoard, s: Score| in_tree(c.2, h, s) implies #[trigger] known_from(e, cs2).contains((h, s)) by {
        assert(cs2[cs.len() as int] == c);
    }
}

impl GameTreeInner {
    /// The position of a node where the game goes on.
    pub open spec fn position(self) -> Option<Board> {
        match self.data {
            Data::Board(b) => Some(*b),
            Data::Children { board, .. } => Some(*board),
            Data::End(_) => None,
        }
    }

    /// The node is reached from `b` by the move `m`.
    pub open spec fn reached_by(self, b: Board, m: Move) -> bool {
        match self.position() {
            Some(n) => moved_to(b, m, n),
            None => true,
        }
    }

    /// Every position of the tree is sound and goes on; in an expanded node
    /// every child comes from a move that `valid_moves` lists, and every such
    /// move has a child.
    pub open spec fn wf(self) -> bool
        decreases self,
    {
        match self.data {
            Data::Board(b) => b.wf() && ongoing(*b),
            Data::Children { board, children } => {
                &&& board.wf()
                &&& ongoing(*board)
                &&& children@.len() > 0
                &&& forall|i: int| 0 <= i < children@.len() ==> #[trigger] branch_of(*board, children@[i])
                &&& forall|i: int| 0 <= i < children@.len() ==> (#[trigger] children@[i]).2.wf()
                &&& covers(*board, children@)
            },
            Data::End(_) => true,
        }
    }

    /// A node for `board`: the end of the game where it has ended, else the
    /// position waiting to be expanded; no score yet.
    pub fn new(board: Board) -> (r: GameTreeInner)
        requires
            board.wf(),
        ensures
            r.wf(),
            r.score is None,
            ongoing(board) ==> r.data == Data::Board(Box::new(board)),
            !ongoing(board) ==> r.data is End,
    {
        let data = match board.valid_moves() {
            Ok(moves) => {
                proof {
                    assert(moves@.contains(moves@[0]));
                    assert(legal(board, moves@[0]));
                }
                Data::Board(Box::new(board))
            },
            Err(end_state) => Data::End(end_state),
        };
        GameTreeInner { data, score: None }
    }

    /// The side to move at a node where the game goes on.
    fn current_player(&self) -> (r: Color)
        requires
            self.position() is Some,
        ensures
            r == self.position()->Some_0.current_player,
    {
        match &self.data {
            Data::Board(board) => board.current_player(),
            Data::Children { board, .. } => board.current_player(),
            Data::End(_) => Color::White,
        }
    }

    /// Gives a node not yet expanded a child for each move that
    /// `valid_moves` lists, in that order; other nodes stay as they are.
    fn expand(&mut self)
        requires
            old(self).wf(),
        ensures
            final(self).wf(),
            final(self).position() == old(self).position(),
            final(self).score == old(self).score,
            old(self).data !is Board ==> *final(self) == *old(self),
            old(self).data is Board ==> final(self).data is Children,
            old(self).data is Board ==> forall|i: int|
                0 <= i < final(self).data->children@.len() ==> fresh(#[trigger] final(self).data->children@[i].2),
    {
        let board = match &self.data {
            Data::Board(board) => **board,
            _ => {
                return;
            },
        };
        let moves = match board.valid_moves() {
            Ok(moves) => moves,
            Err(_) => {
                return;
            },
        };
        let mut children: Vec<(Lan, Option<Lan>, GameTreeInner)> = Vec::new();
        let mut i: usize = 0;
        while i < moves.len()
            invariant
                0 <= i <= moves@.len(),
                board.wf(),
                !dead_position(board.pieces@),
                forall|m: Move| moves@.contains(m) <==> legal(board, m),
                children@.len() == i,
                forall|k: int| 0 <= k < i ==> #[trigger] branch_of(board, children@[k]),
                forall|k: int| 0 <= k < i ==> (#[trigger] children@[k]).2.wf(),
                forall|k: int| 0 <= k < i ==> #[trigger] branch_for(board, children@[k], moves@[k]),
                forall|k: int| 0 <= k < i ==> fresh(#[trigger] children@[k].2),
            decreases moves@.len() - i,
        {
            let m = moves[i];
            proof {
                assert(moves@.contains(m));
                lemma_listed_readable(board, m);
                crate::board::lemma_legal_move_keeps_wf(board, m);
            }
            let (first, second) = m.as_lan_pair(&board);
            let next = board.clone_and_move(&m);
            let tree = GameTreeInner::new(next);
            proof {
                assert(listed(board, m));
                assert(tree.reached_by(board, m));
                assert(branch_of(board, (first, second, tree)));
            }
            let ghost before = children@;
            children.push((first, second, tree));
            proof {
                assert forall|k: int| 0 <= k < i + 1 implies #[trigger] branch_for(board, children@[k], moves@[k]) by {
                    if k < i {
                        assert(children@[k] == before[k]);
                    }
                }
            }
            i = i + 1;
        }
        proof {
            assert forall|m: Move| #[trigger] listed(board, m) implies exists|k: int|
                0 <= k < children@.len() && #[trigger] branch_for(board, children@[k], m) by {
                assert(moves@.contains(m));
                let k = choose|k: int| 0 <= k < moves@.len() && moves@[k] == m;
                assert(branch_for(board, children@[k], moves@[k]));
            }
        }
        self.data = Data::Children { board: Box::new(board), children };
    }
}

/// The best line of a tree follows moves that `valid_moves` lists, each from
/// the position the previous one leads to.
pub proof fn lemma_best_line_legal(t: GameTreeInner)
    requires
        t.wf(),
        t.position() is Some,
    ensures
        legal_line(t.position()->Some_0, line_of(t)),
    decreases t,
{
    match t.data {
        Data::Children { board, children } => {
            let b = *board;
            let branch = children@[0];
            assert(branch_of(b, branch));
            assert(branch.2.wf());
            let m = choose|m: Move|
                #[trigger] listed(b, m) && lan_pair_of(b, m) == (branch.0, branch.1) && branch.2.reached_by(b, m);
            let line = line_of(t);
            assert(line[0] == branch.0);
            assert(line.drop_first() =~= line_of(branch.2));
            match branch.2.position() {
                Some(n) => {
                    lemma_best_line_legal(branch.2);
                    assert(moved_to(b, m, n));
                },
                None => {
                    assert(line_of(branch.2) =~= Seq::<Lan>::empty());
                    assert(line.len() == 1);
                },
            }
            assert(listed(b, m) && lan_pair_of(b, m).0 == line[0]);
        },
        _ => {
            assert(line_of(t) =~= Seq::<Lan>::empty());
        },
    }
}


/// Among the children of a node where `player` moves, a child scored `a`
/// comes before one scored `b`: a scored child before an unscored one, and
/// of two scored ones the better for `player` first.
pub open spec fn ranks_before(player: Color, a: Option<Score>, b: Option<Score>) -> bool {
    match (a, b) {
        (Some(x), Some(y)) => match player {
            Color::White => score_less(y, x),
            Color::Black => score_less(x, y),
        },
        (Some(_), None) => true,
        _ => false,
    }
}

/// Coming first among children is a strict order.
proof fn lemma_ranks_before(player: Color, a: Option<Score>, b: Option<Score>, c: Option<Score>)
    ensures
        !ranks_before(player, a, a),
        ranks_before(player, a, b) && ranks_before(player, b, c) ==> ranks_before(player, a, c),
{
    if let (Some(x), Some(y), Some(z)) = (a, b, c) {
        lemma_score_order(x, y, z);
        lemma_score_order(z, y, x);
    }
    if let Some(x) = a {
        lemma_score_order(x, x, x);
    }
}

/// Whether a child scored `a` comes before one scored `b`, as `ranks_before` says.
fn ranks_before_exec(player: Color, a: Option<Score>, b: Option<Score>) -> (r: bool)
    ensures
        r == ranks_before(player, a, b),
{
    match (a, b) {
        (Some(x), Some(y)) => match player {
            Color::White => y.is_less(x),
            Color::Black => x.is_less(y),
        },
        (Some(_), None) => true,
        _ => false,
    }
}

/// The children ordered so that none comes after one it ranks before, as
/// `ranks_before` says for `player`: the same children, in some such order.
fn sort_by_score(v: &mut Vec<(Lan, Option<Lan>, GameTreeInner)>, player: Color)
    ensures
        final(v)@.len() == old(v)@.len(),
        forall|k: int| 0 <= k < final(v)@.len() ==> old(v)@.contains(#[trigger] final(v)@[k]),
        forall|j: int| 0 <= j < old(v)@.len() ==> final(v)@.contains(#[trigger] old(v)@[j]),
        forall|i: int, j: int|
            0 <= i < j < final(v)@.len() ==> !ranks_before(
                player,
                #[trigger] final(v)@[j].2.score,
                #[trigger] final(v)@[i].2.score,
            ),
{
    let ghost orig = old(v)@;
    let mut rest: Vec<(Lan, Option<Lan>, GameTreeInner)> = Vec::new();
    std::mem::swap(&mut rest, v);
    let mut r: Vec<(Lan, Option<Lan>, GameTreeInner)> = Vec::new();
    let ghost mut rsrc: Seq<int> = Seq::empty();
    let ghost mut ssrc: Seq<int> = Seq::new(orig.len(), |k: int| k);
    proof {
        assert forall|j: int| 0 <= j < orig.len() implies r@.contains(#[trigger] orig[j]) || rest@.contains(orig[j]) by {
            assert(rest@[j] == orig[j]);
        }
    }
    while rest.len() > 0
        invariant
            r@.len() + rest@.len() == orig.len(),
            rsrc.len() == r@.len(),
            ssrc.len() == rest@.len(),
            forall|k: int| 0 <= k < r@.len() ==> 0 <= #[trigger] rsrc[k] < orig.len() && r@[k] == orig[rsrc[k]],
            forall|k: int| 0 <= k < rest@.len() ==> 0 <= #[trigger] ssrc[k] < orig.len() && rest@[k] == orig[ssrc[k]],
            forall|j: int| 0 <= j < orig.len() ==> r@.contains(#[trigger] orig[j]) || rest@.contains(orig[j]),
            forall|i: int, j: int|
                0 <= i < j < r@.len() ==> !ranks_before(player, #[trigger] r@[j].2.score, #[trigger] r@[i].2.score),
            forall|i: int, k: int|
                0 <= i < r@.len() && 0 <= k < rest@.len() ==> !ranks_before(
                    player,
                    #[trigger] rest@[k].2.score,
                    #[trigger] r@[i].2.score,
                ),
        decreases rest@.len(),
    {
        let mut best: usize = 0;
        let mut k: usize = 1;
        proof {
            lemma_ranks_before(player, rest@[0].2.score, rest@[0].2.score, rest@[0].2.score);
        }
        while k < rest.len()
            invariant
                0 <= best < k <= rest@.len(),
                forall|j: int| 0 <= j < k ==> !ranks_before(player, #[trigger] rest@[j].2.score, rest@[best as int].2.score),
            decreases rest@.len() - k,
        {
            if ranks_before_exec(player, rest[k].2.score, rest[best].2.score) {
                proof {
                    assert forall|j: int| 0 <= j < k + 1 implies !ranks_before(
                        player,
                        #[trigger] rest@[j].2.score,
                        rest@[k as int].2.score,
                    ) by {
                        lemma_ranks_before(player, rest@[j].2.score, rest@[k as int].2.score, rest@[best as int].2.score);
                        lemma_ranks_before(player, rest@[k as int].2.score, rest@[k as int].2.score, rest@[k as int].2.score);
                    }
                }
                best = k;
            }
            k = k + 1;
        }
        let ghost before = rest@;
        let ghost before_src = ssrc;
        let item = rest.remove(best);
        proof {
            ssrc = ssrc.remove(best as int);
            assert forall|k: int| 0 <= k < rest@.len() implies 0 <= #[trigger] ssrc[k] < orig.len() && rest@[k] == orig[ssrc[k]] by {
                if k < best {
                    assert(rest@[k] == before[k]);
                    assert(ssrc[k] == before_src[k]);
                } else {
                    assert(rest@[k] == before[k + 1]);
                    assert(ssrc[k] == before_src[k + 1]);
                }
            }
            assert forall|k: int| 0 <= k < rest@.len() implies !ranks_before(
                player,
                #[trigger] rest@[k].2.score,
                item.2.score,
            ) by {
                if k < best {
                    assert(rest@[k] == before[k]);
                } else {
                    assert(rest@[k] == before[k + 1]);
                }
            }
            assert(before[best as int] == item);
        }
        let ghost r_before = r@;
        r.push(item);
        proof {
            assert forall|j: int| 0 <= j < orig.len() implies r@.contains(#[trigger] orig[j]) || rest@.contains(orig[j]) by {
                if r_before.contains(orig[j]) {
                    let k = choose|k: int| 0 <= k < r_before.len() && r_before[k] == orig[j];
                    assert(r@[k] == r_before[k]);
                } else {
                    let k = choose|k: int| 0 <= k < before.len() && before[k] == orig[j];
                    if k == best {
                        assert(r@[r_before.len() as int] == orig[j]);
                    } else if k < best {
                        assert(rest@[k] == before[k]);
                    } else {
                        assert(rest@[k - 1] == before[k]);
                    }
                }
            }
            rsrc = rsrc.push(before_src[best as int]);
            assert forall|k: int| 0 <= k < r@.len() implies 0 <= #[trigger] rsrc[k] < orig.len() && r@[k] == orig[rsrc[k]] by {
                if k < r_before.len() {
                    assert(r@[k] == r_before[k]);
                } else {
                    assert(r@[k] == before[best as int]);
                }
            }
            assert forall|i: int, j: int|
                0 <= i < j < r@.len() implies !ranks_before(player, #[trigger] r@[j].2.score, #[trigger] r@[i].2.score) by {
                if j == r_before.len() {
                    assert(r@[j] == before[best as int]);
                    assert(r@[i] == r_before[i]);
                } else {
                    assert(r@[j] == r_before[j]);
                    assert(r@[i] == r_before[i]);
                }
            }
            assert forall|i: int, k: int|
                0 <= i < r@.len() && 0 <= k < rest@.len() implies !ranks_before(
                    player,
                    #[trigger] rest@[k].2.score,
                    #[trigger] r@[i].2.score,
                ) by {
                if k < best {
                    assert(rest@[k] == before[k]);
                } else {
                    assert(rest@[k] == before[k + 1]);
                }
                if i < r_before.len() {
                    assert(r@[i] == r_before[i]);
                }
            }
        }
    }
    *v = r;
    proof {
        assert forall|j: int| 0 <= j < old(v)@.len() implies v@.contains(#[trigger] old(v)@[j]) by {
            assert(orig[j] == old(v)@[j]);
            assert(r@.contains(orig[j]) || rest@.contains(orig[j]));
            if rest@.contains(orig[j]) {
                let k = choose|k: int| 0 <= k < rest@.len() && rest@[k] == orig[j];
            }
        }
        assert forall|k: int| 0 <= k < v@.len() implies old(v)@.contains(#[trigger] v@[k]) by {
            assert(0 <= rsrc[k] < orig.len() && v@[k] == orig[rsrc[k]]);
            assert(old(v)@[rsrc[k]] == orig[rsrc[k]]);
        }
    }
}


/// Whether the search was told to stop. The answer rests on when another
/// thread sets the flag.
fn stop_requested(signal: &AtomicBool) -> bool {
    signal.load(std::sync::atomic::Ordering::Relaxed)
}

/// `h` is the grid of the board `b`: the same piece on every square, the
/// same side to move, castling rights and en passant target.
pub open spec fn shows_grid(b: Board, h: HashableBoard) -> bool {
    &&& forall|q: Coord| q.wf() ==> #[trigger] h.cell(q.x as int, q.y as int) == piece_at(b.pieces@, q)
    &&& h.current_player == b.current_player
    &&& h.castling_right == b.castling_right
    &&& h.en_passant_target == b.en_passant_target
}

impl GameTreeInner {
    /// The grid of the node's position.
    fn board(&self) -> (r: HashableBoard)
        requires
            self.wf(),
            self.position() is Some,
        ensures
            shows_grid(self.position()->Some_0, r),
    {
        match &self.data {
            Data::Board(board) => board.as_hashable(),
            Data::Children { board, .. } => board.as_hashable(),
            Data::End(_) => {
                proof {
                    assert(false);
                }
                HashableBoard::starting_position()
            },
        }
    }

    /// The score to use for the node when the search goes no deeper: the one
    /// it has, else the estimate of its position, else the score of the
    /// finished game.
    fn estimate<E: Fn(&Board) -> Estimated>(&self, estimate: &E) -> (r: Score)
        requires
            forall|b: &Board| #[trigger] estimate.requires((b,)),
        ensures
            self.score matches Some(s) ==> r == s,
            self.score is None && self.position() is Some ==> exists|e: Estimated|
                r == Score::Estimated(e) && call_ensures(estimate, (&self.position()->Some_0,), e),
    {
        match self.score {
            Some(score) => score,
            None => match &self.data {
                Data::Board(board) => Score::Estimated(estimate(&**board)),
                Data::Children { board, .. } => Score::Estimated(estimate(&**board)),
                Data::End(end_state) => Score::from_end_state(*end_state),
            },
        }
    }

    /// Alpha-beta search of the node `depth` plies deep within the window
    /// from `alpha` to `beta`, using and filling `table`, with `estimate`
    /// scoring the positions where the search stops. Gives the number of
    /// nodes visited. The tree keeps its shape: every node keeps its position,
    /// nodes may be expanded, and children are reordered best first.
    fn alpha_beta<E: Fn(&Board) -> Estimated>(
        &mut self,
        depth: u32,
        alpha: Score,
        beta: Score,
        table: &mut Table,
        stop_signal: Option<&AtomicBool>,
        estimate: &E,
    ) -> (nodes: u32)
        requires
            old(self).wf(),
            forall|b: &Board| #[trigger] estimate.requires((b,)),
        ensures
            final(self).wf(),
            final(self).position() == old(self).position(),
            nodes >= 1,
            stop_signal is None && (old(self).data is End || old(table).entries() == Map::<
                HashableBoard,
                TableValue,
            >::empty()) ==> final(self).score is Some,
            stop_signal is None && old(table).entries() == Map::<HashableBoard, TableValue>::empty() && depth >= 1
                && old(self).position() is Some ==> searched_in(*final(self), alpha, beta),
            old(table).entries() == Map::<HashableBoard, TableValue>::empty() ==> (stop_signal is Some
                && *final(self) == *old(self) && nodes == 1) || (final(self).score is Some && (depth >= 1
                && old(self).position() is Some ==> searched_in(*final(self), alpha, beta))),
            old(table).entries().dom().subset_of(final(table).entries().dom()),
            forall|h: HashableBoard, s: Score|
                #[trigger] stored(final(table).entries(), h, s) ==> stored(old(table).entries(), h, s) || in_tree(
                    *final(self),
                    h,
                    s,
                ),
            marks(final(table).entries()).subset_of(marks(old(table).entries())),
            stop_signal is None ==> searched_to(
                *final(self),
                depth as int,
                known_after(old(table).entries(), *final(self)),
                marks(old(table).entries()),
                estimate,
                true,
            ),
            stop_signal is None && fresh(*old(self)) ==> searched_to(
                *final(self),
                depth as int,
                known_after(old(table).entries(), *final(self)),
                marks(old(table).entries()),
                estimate,
                false,
            ),
            stop_signal is None && old(self).position() is Some ==> exists|h: HashableBoard|
                shows_grid(old(self).position()->Some_0, h) && (final(table).entries().contains_key(h)
                    && final(table).entries()[h].transposition is Some ==> final(table).entries()[h].transposition
                    == final(self).score),
        decreases depth, 1int,
    {
        if let Some(signal) = stop_signal {
            if stop_requested(signal) {
                return 1;
            }
        }
        let ended = match &self.data {
            Data::End(end_state) => Some(*end_state),
            _ => None,
        };
        if let Some(end_state) = ended {
            self.score = Some(Score::from_end_state(end_state));
            return 1;
        }
        let board = self.board();
        if let Some(score) = table.get_transposition(&board) {
            self.score = Some(score);
            proof {
                assert(stored(table.entries(), board, score));
                assert(known_after(table.entries(), *self).contains((board, score)));
                assert(looked_up(board, self.score, known_after(table.entries(), *self), marks(table.entries()), false));
                assert(looked_up(board, self.score, known_after(table.entries(), *self), marks(table.entries()), true));
                assert(shows_grid(self.position()->Some_0, board));
            }
            return 1;
        }
        if table.contains_repetition(&board) {
            proof {
                assert(marks(table.entries()).contains(board));
                assert(looked_up(board, self.score, known_after(table.entries(), *self), marks(table.entries()), true));
                if fresh(*self) {
                    assert(looked_up(board, self.score, known_after(table.entries(), *self), marks(table.entries()), false));
                }
                assert(shows_grid(self.position()->Some_0, board));
            }
            return 1;
        }
        if depth == 0 {
            let ghost before = *self;
            let r = self.estimate(estimate);
            self.score = Some(r);
            proof {
                if fresh(before) {
                    let e = choose|e: Estimated|
                        r == Score::Estimated(e) && call_ensures(estimate, (&before.position()->Some_0,), e);
                    if self.data is Board {
                        assert(estimated_by(self.position()->Some_0, self.score, estimate));
                    }
                }
            }
            1
        } else {
            let ghost before = *self;
            let ghost e_start = table.entries();
            let n = self.search(board, depth, alpha, beta, table, stop_signal, estimate);
            proof {
                if stop_signal is None && fresh(before) {
                    lemma_searched_to_grows(
                        *self,
                        depth as int,
                        known_after(e_start, *self),
                        marks(e_start),
                        known_after(e_start, *self),
                        marks(e_start),
                        estimate,
                        false,
                        true,
                    );
                }
            }
            n
        }
    }

    /// Searches each child in turn one ply less deep, narrowing the window as
    /// scores come in and stopping at a cut-off; then orders the searched
    /// children best first for the side to move and gives the node its score.
    #[verifier::rlimit(60)]
    fn search<E: Fn(&Board) -> Estimated>(
        &mut self,
        board: HashableBoard,
        depth: u32,
        alpha: Score,
        beta: Score,
        table: &mut Table,
        stop_signal: Option<&AtomicBool>,
        estimate: &E,
    ) -> (nodes: u32)
        requires
            old(self).wf(),
            old(self).position() is Some,
            shows_grid(old(self).position()->Some_0, board),
            depth >= 1,
            forall|b: &Board| #[trigger] estimate.requires((b,)),
        ensures
            final(self).wf(),
            final(self).position() == old(self).position(),
            final(self).data is Children,
            final(self).score is Some,
            searched_in(*final(self), alpha, beta),
            nodes >= 1,
            old(table).entries().dom().subset_of(final(table).entries().dom()),
            final(table).entries().contains_key(board) ==> final(table).entries()[board].transposition
                == final(self).score,
            forall|h: HashableBoard, s: Score|
                #[trigger] stored(final(table).entries(), h, s) ==> stored(old(table).entries(), h, s) || in_tree(
                    *final(self),
                    h,
                    s,
                ),
            marks(final(table).entries()).subset_of(marks(old(table).entries())),
            stop_signal is None ==> searched_to(
                *final(self),
                depth as int,
                known_after(old(table).entries(), *final(self)),
                marks(old(table).entries()),
                estimate,
                !fresh(*old(self)),
            ),
        decreases depth, 0int,
    {
        let mut nodes: u32 = 1;
        let ghost searching = stop_signal is None && fresh(*self);
        let ghost kept = !fresh(*self);
        let ghost dom0 = table.entries().dom();
        let ghost e0 = table.entries();
        let current_player = self.current_player();
        self.expand();
        let mut data = Data::End(EndState::Draw);
        std::mem::swap(&mut data, &mut self.data);
        let (position, mut children) = match data {
            Data::Children { board, children } => (board, children),
            _ => {
                proof {
                    assert(false);
                }
                return nodes;
            },
        };
        let ghost pos = *position;
        let ghost total = children@.len();
        let ghost orig = children@;
        let mut alpha_beta = AlphaBetaState::new(current_player, alpha, beta);
        table.insert_repetition(board);
        let mut done: Vec<(Lan, Option<Lan>, GameTreeInner)> = Vec::new();
        proof {
            assert(dom0.subset_of(table.entries().dom()));
            assert forall|h: HashableBoard, s: Score| #[trigger] stored(table.entries(), h, s) implies known_from(
                e0,
                done@,
            ).contains((h, s)) by {
                assert(stored(e0, h, s));
            }
            assert forall|h: HashableBoard| marks(table.entries()).contains(h) implies marks(e0).insert(board).contains(h) by {
                if h != board {
                    assert(e0.contains_key(h) && e0[h].repetition);
                }
            }
            if searching {
                assert forall|k: int| 0 <= k < children@.len() implies fresh(#[trigger] children@[k].2) by {
                    assert(children@[k] == orig[k]);
                }
            }
        }
        while children.len() > 0
            invariant
                depth >= 1,
                forall|b: &Board| #[trigger] estimate.requires((b,)),
                pos == *position,
                pos.wf(),
                ongoing(pos),
                done@.len() + children@.len() == total,
                total > 0,
                forall|k: int| 0 <= k < done@.len() ==> #[trigger] branch_of(pos, done@[k]),
                forall|k: int| 0 <= k < done@.len() ==> (#[trigger] done@[k]).2.wf(),
                forall|k: int| 0 <= k < children@.len() ==> #[trigger] branch_of(pos, children@[k]),
                forall|k: int| 0 <= k < children@.len() ==> (#[trigger] children@[k]).2.wf(),
                orig.len() == total,
                covers(pos, orig),
                forall|k: int| 0 <= k < done@.len() ==> same_branch(#[trigger] done@[k], orig[k]),
                forall|k: int| 0 <= k < children@.len() ==> #[trigger] children@[k] == orig[done@.len() + k],
                done@.len() >= 1 || children@.len() == total,
                alpha_beta.current_player == current_player,
                current_player == pos.current_player,
                current_player == Color::White ==> alpha_beta.beta == beta,
                current_player == Color::Black ==> alpha_beta.alpha == alpha,
                forall|k: int|
                    0 <= k < done@.len() && (#[trigger] done@[k]).2.score is Some ==> !ranks_before(
                        current_player,
                        done@[k].2.score,
                        Some(alpha_beta.score),
                    ),
                (alpha_beta.score == Score::Win(current_player.other()) && forall|k: int|
                    0 <= k < done@.len() ==> (#[trigger] done@[k]).2.score is None) || exists|k: int|
                    0 <= k < done@.len() && (#[trigger] done@[k]).2.score == Some(alpha_beta.score),
                nodes >= 1,
                dom0.subset_of(table.entries().dom()),
                searching ==> stop_signal is None,
                shows_grid(pos, board),
                forall|h: HashableBoard, s: Score|
                    #[trigger] stored(table.entries(), h, s) ==> known_from(e0, done@).contains((h, s)),
                marks(table.entries()).subset_of(marks(e0).insert(board)),
                searching == (stop_signal is None && !kept),
                stop_signal is None ==> forall|k: int|
                    0 <= k < done@.len() ==> searched_to(
                        #[trigger] done@[k].2,
                        depth - 1,
                        known_from(e0, done@),
                        with_grid(marks(e0), pos),
                        estimate,
                        kept,
                    ),
                searching ==> forall|k: int| 0 <= k < children@.len() ==> fresh(#[trigger] children@[k].2),
            ensures
                done@.len() >= 1,
                children@.len() > 0 ==> cut_off(current_player, alpha_beta.score, alpha, beta),
                current_player == pos.current_player,
                done@.len() + children@.len() == total,
                forall|k: int| 0 <= k < done@.len() ==> #[trigger] branch_of(pos, done@[k]),
                forall|k: int| 0 <= k < done@.len() ==> (#[trigger] done@[k]).2.wf(),
                forall|k: int| 0 <= k < children@.len() ==> #[trigger] branch_of(pos, children@[k]),
                forall|k: int| 0 <= k < children@.len() ==> (#[trigger] children@[k]).2.wf(),
                forall|k: int| 0 <= k < done@.len() ==> same_branch(#[trigger] done@[k], orig[k]),
                forall|k: int| 0 <= k < children@.len() ==> #[trigger] children@[k] == orig[done@.len() + k],
                alpha_beta.current_player == current_player,
                forall|k: int|
                    0 <= k < done@.len() && (#[trigger] done@[k]).2.score is Some ==> !ranks_before(
                        current_player,
                        done@[k].2.score,
                        Some(alpha_beta.score),
                    ),
                (alpha_beta.score == Score::Win(current_player.other()) && forall|k: int|
                    0 <= k < done@.len() ==> (#[trigger] done@[k]).2.score is None) || exists|k: int|
                    0 <= k < done@.len() && (#[trigger] done@[k]).2.score == Some(alpha_beta.score),
                nodes >= 1,
                dom0.subset_of(table.entries().dom()),
                searching ==> stop_signal is None,
                shows_grid(pos, board),
                forall|h: HashableBoard, s: Score|
                    #[trigger] stored(table.entries(), h, s) ==> known_from(e0, done@).contains((h, s)),
                marks(table.entries()).subset_of(marks(e0).insert(board)),
                searching == (stop_signal is None && !kept),
                stop_signal is None ==> forall|k: int|
                    0 <= k < done@.len() ==> searched_to(
                        #[trigger] done@[k].2,
                        depth - 1,
                        known_from(e0, done@),
                        with_grid(marks(e0), pos),
                        estimate,
                        kept,
                    ),
                searching ==> forall|k: int| 0 <= k < children@.len() ==> fresh(#[trigger] children@[k].2),
            decreases children@.len(),
        {
            let ghost before = children@;
            let (first, second, mut tree) = children.remove(0);
            proof {
                assert(before[0] == (first, second, tree));
                assert(branch_of(pos, before[0]));
                assert(before[0].2.wf());
                assert forall|k: int| 0 <= k < children@.len() implies #[trigger] branch_of(pos, children@[k])
                    && children@[k].2.wf() by {
                    assert(children@[k] == before[k + 1]);
                }
                assert(before[0] == orig[done@.len() as int]);
                assert forall|k: int| 0 <= k < children@.len() implies #[trigger] children@[k] == orig[done@.len() + 1 + k] by {
                    assert(children@[k] == before[k + 1]);
                }
            }
            let ghost old_tree = tree;
            let ghost dom_before = table.entries().dom();
            let ghost e_before = table.entries();
            proof {
                if searching {
                    assert(fresh(before[0].2));
                }
            }
            let n = tree.alpha_beta(depth - 1, alpha_beta.alpha, alpha_beta.beta, table, stop_signal, estimate);
            proof {
                if searching {
                    assert forall|k: int| 0 <= k < children@.len() implies fresh(#[trigger] children@[k].2) by {
                        assert(children@[k] == before[k + 1]);
                    }
                }
            }
            nodes = nodes.saturating_add(n);
            let score = tree.score;
            proof {
                let m = choose|m: Move|
                    #[trigger] listed(pos, m) && lan_pair_of(pos, m) == (first, second) && old_tree.reached_by(pos, m);
                assert(tree.reached_by(pos, m));
                assert(branch_of(pos, (first, second, tree)));
            }
            let ghost done_before = done@;
            done.push((first, second, tree));
            proof {
                assert forall|k: int| 0 <= k < done@.len() implies #[trigger] branch_of(pos, done@[k]) && done@[k].2.wf() by {
                    if k < done_before.len() {
                        assert(done@[k] == done_before[k]);
                    }
                }
                assert forall|k: int| 0 <= k < done@.len() implies same_branch(#[trigger] done@[k], orig[k]) by {
                    if k < done_before.len() {
                        assert(done@[k] == done_before[k]);
                    }
                }
                lemma_known_from_push(e0, done_before, (first, second, tree));
                assert forall|h: HashableBoard, s: Score| #[trigger] stored(table.entries(), h, s) implies known_from(
                    e0,
                    done@,
                ).contains((h, s)) by {
                    if stored(e_before, h, s) {
                        assert(known_from(e0, done_before).contains((h, s)));
                    } else {
                        assert(in_tree(tree, h, s));
                    }
                }
                assert(marks(table.entries()).subset_of(marks(e0).insert(board)));
                if stop_signal is None {
                    assert(marks(e0).insert(board).subset_of(with_grid(marks(e0), pos)));
                    assert forall|h: HashableBoard, s: Score| known_after(e_before, tree).contains((h, s)) implies known_from(
                        e0,
                        done@,
                    ).contains((h, s)) by {
                        if stored(e_before, h, s) {
                            assert(known_from(e0, done_before).contains((h, s)));
                        } else {
                            assert(in_tree(tree, h, s));
                        }
                    }
                    assert(known_after(e_before, tree).subset_of(known_from(e0, done@)));
                    lemma_searched_to_grows(
                        tree,
                        depth - 1,
                        known_after(e_before, tree),
                        marks(e_before),
                        known_from(e0, done@),
                        with_grid(marks(e0), pos),
                        estimate,
                        kept,
                        kept,
                    );
                    assert forall|k: int| 0 <= k < done@.len() implies searched_to(
                        #[trigger] done@[k].2,
                        depth - 1,
                        known_from(e0, done@),
                        with_grid(marks(e0), pos),
                        estimate,
                        kept,
                    ) by {
                        if k < done_before.len() {
                            assert(done@[k] == done_before[k]);
                            lemma_searched_to_grows(
                                done@[k].2,
                                depth - 1,
                                known_from(e0, done_before),
                                with_grid(marks(e0), pos),
                                known_from(e0, done@),
                                with_grid(marks(e0), pos),
                                estimate,
                                kept,
                                kept,
                            );
                        }
                    }
                }
            }
            let ghost last = done@.len() - 1;
            proof {
                assert(done@[last].2.score == score);
            }
            if let Some(score) = score {
                let ghost ab_before = alpha_beta;
                let cut = alpha_beta.set(score);
                proof {
                    lemma_alpha_beta_step(ab_before, score);
                    assert forall|k: int|
                        0 <= k < done@.len() && (#[trigger] done@[k]).2.score is Some implies !ranks_before(
                            current_player,
                            done@[k].2.score,
                            Some(alpha_beta.score),
                        ) by {
                        let sk = done@[k].2.score->Some_0;
                        if k < last {
                            assert(done@[k] == done_before[k]);
                            lemma_score_not_below(alpha_beta.score, ab_before.score, sk);
                            lemma_score_not_below(sk, ab_before.score, alpha_beta.score);
                        }
                    }
                    if ab_before.score == Score::Win(current_player.other()) && forall|k: int|
                        0 <= k < done_before.len() ==> (#[trigger] done_before[k]).2.score is None {
                        assert(alpha_beta.score == score);
                    } else {
                        let k = choose|k: int|
                            0 <= k < done_before.len() && (#[trigger] done_before[k]).2.score == Some(ab_before.score);
                        assert(done@[k] == done_before[k]);
                    }
                    assert(done@[last].2.score == Some(score));
                }
                if cut {
                    break;
                }
            } else {
                proof {
                    assert forall|k: int|
                        0 <= k < done@.len() && (#[trigger] done@[k]).2.score is Some implies !ranks_before(
                            current_player,
                            done@[k].2.score,
                            Some(alpha_beta.score),
                        ) by {
                        if k < last {
                            assert(done@[k] == done_before[k]);
                        }
                    }
                    if !(alpha_beta.score == Score::Win(current_player.other()) && forall|k: int|
                        0 <= k < done_before.len() ==> (#[trigger] done_before[k]).2.score is None) {
                        let k = choose|k: int|
                            0 <= k < done_before.len() && (#[trigger] done_before[k]).2.score == Some(alpha_beta.score);
                        assert(done@[k] == done_before[k]);
                    } else {
                        assert forall|k: int| 0 <= k < done@.len() implies (#[trigger] done@[k]).2.score is None by {
                            if k < done_before.len() {
                                assert(done@[k] == done_before[k]);
                            }
                        }
                    }
                }
            }
        }
        let ghost dom_loop = table.entries().dom();
        let ghost e_loop = table.entries();
        table.remove_repetition(&board);
        proof {
            assert(dom_loop.subset_of(table.entries().dom()));
            assert forall|h: HashableBoard, s: Score| #[trigger] stored(table.entries(), h, s) implies stored(
                e_loop,
                h,
                s,
            ) by {
                if h == board {
                    assert(e_loop.contains_key(h));
                }
            }
            assert forall|h: HashableBoard| marks(table.entries()).contains(h) implies marks(e0).contains(h) by {
                assert(marks(e_loop).contains(h));
                assert(h != board);
            }
        }
        let ghost unsorted = done@;
        sort_by_score(&mut done, current_player);
        proof {
            assert forall|k: int| 0 <= k < done@.len() implies #[trigger] branch_of(pos, done@[k]) && done@[k].2.wf() by {
                assert(unsorted.contains(done@[k]));
                let j = choose|j: int| 0 <= j < unsorted.len() && unsorted[j] == done@[k];
                assert(branch_of(pos, unsorted[j]));
            }
            if stop_signal is None {
                assert forall|k: int| 0 <= k < done@.len() implies searched_to(
                    #[trigger] done@[k].2,
                    depth - 1,
                    known_from(e0, unsorted),
                    with_grid(marks(e0), pos),
                    estimate,
                    kept,
                ) by {
                    assert(unsorted.contains(done@[k]));
                    let j = choose|j: int| 0 <= j < unsorted.len() && unsorted[j] == done@[k];
                    assert(searched_to(
                        unsorted[j].2,
                        depth - 1,
                        known_from(e0, unsorted),
                        with_grid(marks(e0), pos),
                        estimate,
                        kept,
                    ));
                }
            }
        }
        let ghost sorted = done@;
        let ghost rest = children@;
        done.append(&mut children);
        proof {
            assert forall|k: int| 0 <= k < done@.len() implies #[trigger] branch_of(pos, done@[k]) && done@[k].2.wf() by {
                if k < sorted.len() {
                    assert(done@[k] == sorted[k]);
                } else {
                    assert(done@[k] == rest[k - sorted.len()]);
                }
            }
            assert forall|m: Move| #[trigger] listed(pos, m) implies exists|k: int|
                0 <= k < done@.len() && #[trigger] branch_for(pos, done@[k], m) by {
                let i = choose|i: int| 0 <= i < orig.len() && #[trigger] branch_for(pos, orig[i], m);
                if i < unsorted.len() {
                    assert(same_branch(unsorted[i], orig[i]));
                    assert(sorted.contains(unsorted[i]));
                    let k = choose|k: int| 0 <= k < sorted.len() && sorted[k] == unsorted[i];
                    assert(done@[k] == sorted[k]);
                    assert(branch_for(pos, done@[k], m));
                } else {
                    let k = i - unsorted.len();
                    assert(rest[k] == orig[i]);
                    assert(done@[sorted.len() + k] == rest[k]);
                    assert(branch_for(pos, done@[sorted.len() + k], m));
                }
            }
        }
        proof {
            let c0 = sorted[0];
            assert(done@[0] == c0);
            assert(unsorted.contains(c0));
            let i0 = choose|i: int| 0 <= i < unsorted.len() && unsorted[i] == c0;
            let r = alpha_beta.score;
            if r == Score::Win(current_player.other()) && forall|k: int|
                0 <= k < unsorted.len() ==> (#[trigger] unsorted[k]).2.score is None {
                assert(unsorted[i0].2.score is None);
            } else {
                let k = choose|k: int| 0 <= k < unsorted.len() && (#[trigger] unsorted[k]).2.score == Some(r);
                assert(sorted.contains(unsorted[k]));
                let i = choose|i: int| 0 <= i < sorted.len() && sorted[i] == unsorted[k];
                if i > 0 {
                    assert(!ranks_before(current_player, sorted[i].2.score, sorted[0].2.score));
                }
                assert(c0.2.score is Some);
                assert(unsorted[i0].2.score is Some);
                assert(!ranks_before(current_player, unsorted[i0].2.score, Some(r)));
                let s0 = c0.2.score->Some_0;
                assert(level(s0, r));
            }
            let n = sorted.len() as int;
            assert forall|i: int, j: int|
                0 <= i < j < n implies !ranks_before(current_player, #[trigger] done@[j].2.score, #[trigger] done@[i].2.score) by {
                assert(done@[i] == sorted[i]);
                assert(done@[j] == sorted[j]);
            }
            assert forall|i: int| 0 <= i < n implies !ranks_before(current_player, #[trigger] done@[i].2.score, Some(r)) by {
                assert(done@[i] == sorted[i]);
                assert(unsorted.contains(sorted[i]));
                let k = choose|k: int| 0 <= k < unsorted.len() && unsorted[k] == sorted[i];
                if unsorted[k].2.score is Some {
                    assert(!ranks_before(current_player, unsorted[k].2.score, Some(r)));
                }
            }
            assert(n < done@.len() ==> rest.len() > 0);
            assert(best_first_prefix(pos.current_player, done@, r, alpha, beta, n));
        }
        self.data = Data::Children { board: position, children: done };
        self.score = Some(alpha_beta.score);
        let ghost dom_sorted = table.entries().dom();
        let ghost e_sorted = table.entries();
        table.insert_transposition(board, alpha_beta.score);
        proof {
            assert(dom_sorted.subset_of(table.entries().dom()));
            assert(dom0.subset_of(table.entries().dom()));
            let fin = *self;
            assert(shows_grid(*position, board));
            assert(in_tree(fin, board, alpha_beta.score));
            // what the children expanded, the node holds
            assert forall|h: HashableBoard, s: Score| known_from(e0, unsorted).contains((h, s)) implies known_after(
                e0,
                fin,
            ).contains((h, s)) by {
                if !stored(e0, h, s) {
                    let k = choose|k: int| 0 <= k < unsorted.len() && #[trigger] in_tree(unsorted[k].2, h, s);
                    assert(sorted.contains(unsorted[k]));
                    let i = choose|i: int| 0 <= i < sorted.len() && sorted[i] == unsorted[k];
                    assert(done@[i] == sorted[i]);
                    lemma_in_tree_child(fin, i, h, s);
                }
            }
            assert forall|h: HashableBoard, s: Score| #[trigger] stored(table.entries(), h, s) implies stored(e0, h, s)
                || in_tree(fin, h, s) by {
                if h != board {
                    assert(stored(e_sorted, h, s));
                    assert(known_from(e0, unsorted).contains((h, s)));
                    assert(known_after(e0, fin).contains((h, s)));
                }
            }
            assert(marks(table.entries()) =~= marks(e_sorted));
            if stop_signal is None {
                let n = sorted.len() as int;
                assert(known_from(e0, unsorted).subset_of(known_after(e0, fin)));
                assert forall|i: int| 0 <= i < n implies searched_to(
                    #[trigger] done@[i].2,
                    depth - 1,
                    known_after(e0, fin),
                    with_grid(marks(e0), pos),
                    estimate,
                    kept,
                ) by {
                    assert(done@[i] == sorted[i]);
                    lemma_searched_to_grows(
                        sorted[i].2,
                        depth - 1,
                        known_from(e0, unsorted),
                        with_grid(marks(e0), pos),
                        known_after(e0, fin),
                        with_grid(marks(e0), pos),
                        estimate,
                        kept,
                        kept,
                    );
                }
                if !kept {
                    assert forall|i: int| n <= i < done@.len() implies fresh(#[trigger] done@[i].2) by {
                        assert(done@[i] == rest[i - n]);
                    }
                }
                assert(within(n, done@.len() as int));
            }
        }
        nodes
    }
}


/// The child is named by the text `movement`, in either of its forms.
pub open spec fn named(branch: (Lan, Option<Lan>, GameTreeInner), movement: Lan) -> bool {
    branch.0 == movement || branch.1 == Some(movement)
}

/// Appends the first moves along the tree to `line`.
fn push_line(node: &GameTreeInner, line: &mut Vec<Lan>)
    ensures
        final(line)@ == old(line)@ + line_of(*node),
    decreases node,
{
    match &node.data {
        Data::Children { children, .. } => {
            if children.len() > 0 {
                line.push(children[0].0);
                push_line(&children[0].2, line);
                proof {
                    assert(line_of(*node) == seq![children@[0].0] + line_of(children@[0].2));
                    assert(final(line)@ =~= old(line)@ + line_of(*node));
                }
            } else {
                proof {
                    assert(line_of(*node) =~= Seq::<Lan>::empty());
                    assert(final(line)@ =~= old(line)@ + line_of(*node));
                }
            }
        },
        _ => {
            proof {
                assert(line_of(*node) =~= Seq::<Lan>::empty());
                assert(final(line)@ =~= old(line)@ + line_of(*node));
            }
        },
    }
}

/// `u` is the tree `t` after the move `movement`: where the root is not
/// expanded, a new root for the position after the move; otherwise the
/// subtree of the first child named by the move.
pub open spec fn moved_tree(t: GameTree, movement: Lan, u: GameTree) -> bool {
    match t.0.data {
        Data::Board(b) => {
            let n = play(*b, movement);
            &&& played(*b, movement, n)
            &&& u.0.score is None
            &&& ongoing(n) ==> u.0.data == Data::Board(Box::new(n))
            &&& !ongoing(n) ==> u.0.data is End
        },
        Data::Children { children, .. } => exists|j: int|
            0 <= j < children@.len() && #[trigger] named(children@[j], movement) && (forall|k: int|
                0 <= k < j ==> !named(children@[k], movement)) && u.0 == children@[j].2,
        Data::End(_) => false,
    }
}

/// Playing the first move of the best line keeps the rest of it: the best
/// line of the tree after that move is the old one without its first move.
pub proof fn lemma_best_move_keeps_line(t: GameTree, u: GameTree)
    requires
        line_of(t.0).len() > 0,
        moved_tree(t, line_of(t.0)[0], u),
    ensures
        line_of(u.0) == line_of(t.0).drop_first(),
{
    match t.0.data {
        Data::Children { children, .. } => {
            let movement = line_of(t.0)[0];
            assert(movement == children@[0].0);
            assert(named(children@[0], movement));
            let j = choose|j: int|
                0 <= j < children@.len() && #[trigger] named(children@[j], movement) && (forall|k: int|
                    0 <= k < j ==> !named(children@[k], movement)) && u.0 == children@[j].2;
            assert(j == 0);
            assert(line_of(t.0).drop_first() =~= line_of(children@[0].2));
        },
        _ => {},
    }
}

/// An expanded root has a child for every move that `valid_moves` lists on
/// its position: the tree takes each such move by its first text.
pub proof fn lemma_tree_takes_listed_moves(t: GameTree, m: Move)
    requires
        t.wf(),
        t.0.data is Children,
        listed(t.0.position()->Some_0, m),
    ensures
        t.accepts(lan_pair_of(t.0.position()->Some_0, m).0),
{
    let b = t.0.position()->Some_0;
    let children = t.0.data->children@;
    assert(covers(b, children));
    let i = choose|i: int| 0 <= i < children.len() && #[trigger] branch_for(b, children[i], m);
    assert(named(children[i], lan_pair_of(b, m).0));
}

/// The search tree of a game, rooted at the current position.
#[derive(Debug)]
pub struct GameTree(pub GameTreeInner);

impl GameTree {
    /// The tree is well formed.
    pub open spec fn wf(self) -> bool {
        self.0.wf()
    }

    /// The tree takes the move `movement`: the root's position plays it, or
    /// the root has a child named by it.
    pub open spec fn accepts(self, movement: Lan) -> bool {
        match self.0.data {
            Data::Board(b) => playable(*b, movement),
            Data::Children { children, .. } => exists|j: int|
                0 <= j < children@.len() && #[trigger] named(children@[j], movement),
            Data::End(_) => false,
        }
    }

    /// A tree of one node for `board`, not yet searched.
    pub fn new(board: Board) -> (r: GameTree)
        requires
            board.wf(),
        ensures
            r.wf(),
            r.0.score is None,
            ongoing(board) ==> r.0.data == Data::Board(Box::new(board)),
            !ongoing(board) ==> r.0.data is End,
    {
        GameTree(GameTreeInner::new(board))
    }

    /// Whether the tree takes the move `movement`, as `accepts` says.
    pub fn accepts_move(&self, movement: Lan) -> (r: bool)
        requires
            self.wf(),
        ensures
            r == self.accepts(movement),
    {
        match &self.0.data {
            Data::Board(board) => board.assert_move_is_valid(movement),
            Data::Children { children, .. } => {
                let mut j: usize = 0;
                while j < children.len()
                    invariant
                        0 <= j <= children@.len(),
                        self.0.data is Children,
                        self.0.data->children == *children,
                        forall|k: int| 0 <= k < j ==> !#[trigger] named(children@[k], movement),
                    decreases children@.len() - j,
                {
                    if children[j].0 == movement || children[j].1 == Some(movement) {
                        proof {
                            assert(named(children@[j as int], movement));
                            assert(exists|i: int| 0 <= i < children@.len() && #[trigger] named(children@[i], movement));
                            assert(self.0.data->children == *children);
                        }
                        return true;
                    }
                    j = j + 1;
                }
                false
            },
            Data::End(_) => false,
        }
    }

    /// Plays a move on the tree. Where the root is not expanded, its position
    /// plays the move and becomes a new root; otherwise the first child named
    /// by the move becomes the root, with what was searched below it.
    pub fn move_piece(&mut self, movement: Lan)
        requires
            old(self).wf(),
            old(self).accepts(movement),
        ensures
            final(self).wf(),
            moved_tree(*old(self), movement, *final(self)),
    {
        let mut data = Data::End(EndState::Draw);
        std::mem::swap(&mut data, &mut self.0.data);
        let ghost old_data = data;
        let new = match data {
            Data::Board(board) => {
                let mut b = *board;
                let ghost start = b;
                let played_it = b.move_assert(movement);
                proof {
                    lemma_play_unique(start, movement, b);
                }
                GameTreeInner::new(b)
            },
            Data::Children { board, mut children } => {
                let mut j: usize = 0;
                while j < children.len()
                    invariant
                        0 <= j <= children@.len(),
                        forall|k: int| 0 <= k < j ==> !#[trigger] named(children@[k], movement),
                        exists|i: int| 0 <= i < children@.len() && #[trigger] named(children@[i], movement),
                    ensures
                        0 <= j <= children@.len(),
                        forall|k: int| 0 <= k < j ==> !#[trigger] named(children@[k], movement),
                        j < children@.len() ==> named(children@[j as int], movement),
                    decreases children@.len() - j,
                {
                    if children[j].0 == movement || children[j].1 == Some(movement) {
                        break;
                    }
                    j = j + 1;
                }
                if j == children.len() {
                    proof {
                        let i = choose|i: int| 0 <= i < children@.len() && #[trigger] named(children@[i], movement);
                        assert(!named(children@[i], movement));
                    }
                }
                proof {
                    assert(named(children@[j as int], movement));
                    assert(children@[j as int].2.wf());
                }
                let (_, _, child) = children.swap_remove(j);
                child
            },
            Data::End(_) => {
                proof {
                    assert(false);
                }
                GameTreeInner { data: Data::End(EndState::Draw), score: None }
            },
        };
        self.0 = new;
    }

    /// Searches the tree `depth` plies deep from a cleared table, with
    /// `estimate` scoring the positions where the search stops; gives the
    /// number of nodes visited.
    fn calculate_raw<E: Fn(&Board) -> Estimated>(
        &mut self,
        depth: u32,
        table: &mut Table,
        stop_signal: Option<&AtomicBool>,
        estimate: &E,
    ) -> (nodes: u32)
        requires
            old(self).wf(),
            forall|b: &Board| #[trigger] estimate.requires((b,)),
        ensures
            final(self).wf(),
            final(self).0.position() == old(self).0.position(),
            nodes >= 1,
            stop_signal is None ==> final(self).0.score is Some,
            stop_signal is None && depth >= 1 && old(self).0.position() is Some ==> searched_in(
                final(self).0,
                Score::Win(Color::Black),
                Score::Win(Color::White),
            ),
            (stop_signal is Some && *final(self) == *old(self) && nodes == 1) || (final(self).0.score is Some && (
            depth >= 1 && old(self).0.position() is Some ==> searched_in(
                final(self).0,
                Score::Win(Color::Black),
                Score::Win(Color::White),
            ))),
            stop_signal is None ==> searched_to(
                final(self).0,
                depth as int,
                known_after(Map::empty(), final(self).0),
                Set::empty(),
                estimate,
                true,
            ),
            stop_signal is None && fresh(old(self).0) ==> searched_to(
                final(self).0,
                depth as int,
                known_after(Map::empty(), final(self).0),
                Set::empty(),
                estimate,
                false,
            ),
    {
        table.clear();
        proof {
            assert(marks(table.entries()) =~= Set::<HashableBoard>::empty());
        }
        self.0.alpha_beta(depth, Score::black_wins(), Score::white_wins(), table, stop_signal, estimate)
    }

    /// Searches the tree `depth` plies deep, as `calculate_raw` does, to the
    /// end: the root then has a score, and a root where the game goes on is
    /// expanded with its best child first, its score level with that child's.
    /// The tree is searched `depth` plies deep, as `searched_to` says: a
    /// position met in the table takes a score that an expanded position of
    /// the tree with the same grid has, or, lying on the line above it, keeps
    /// its score; where the search stops, a position of a tree no search has
    /// reached yet is scored by `estimate`, and one of a tree searched before
    /// may keep the score it had.
    pub fn calculate<E: Fn(&Board) -> Estimated>(&mut self, depth: u32, table: &mut Table, estimate: &E) -> (nodes: u32)
        requires
            old(self).wf(),
            forall|b: &Board| #[trigger] estimate.requires((b,)),
        ensures
            final(self).wf(),
            final(self).0.position() == old(self).0.position(),
            nodes >= 1,
            final(self).0.score is Some,
            depth >= 1 && old(self).0.position() is Some ==> searched_in(
                final(self).0,
                Score::Win(Color::Black),
                Score::Win(Color::White),
            ),
            searched_to(final(self).0, depth as int, known_after(Map::empty(), final(self).0), Set::empty(), estimate, true),
            fresh(old(self).0) ==> searched_to(
                final(self).0,
                depth as int,
                known_after(Map::empty(), final(self).0),
                Set::empty(),
                estimate,
                false,
            ),
    {
        self.calculate_raw(depth, table, None, estimate)
    }

    /// Searches the tree `depth` plies deep, as `calculate_raw` does, until
    /// `stop_signal` is set. Where the signal is found set at the root, the
    /// tree is left as it was; otherwise the root gets a score, and a root
    /// where the game goes on is expanded with its best child first, its
    /// score level with that child's.
    pub fn calculate_with_stop_signal<E: Fn(&Board) -> Estimated>(
        &mut self,
        depth: u32,
        table: &mut Table,
        stop_signal: &AtomicBool,
        estimate: &E,
    ) -> (nodes: u32)
        requires
            old(self).wf(),
            forall|b: &Board| #[trigger] estimate.requires((b,)),
        ensures
            final(self).wf(),
            final(self).0.position() == old(self).0.position(),
            nodes >= 1,
            (*final(self) == *old(self) && nodes == 1) || (final(self).0.score is Some && (depth >= 1
                && old(self).0.position() is Some ==> searched_in(
                final(self).0,
                Score::Win(Color::Black),
                Score::Win(Color::White),
            ))),
    {
        self.calculate_raw(depth, table, Some(stop_signal), estimate)
    }

    /// The first move of the best line.
    pub fn best_move(&self) -> (r: Option<Lan>)
        ensures
            r == if line_of(self.0).len() > 0 {
                Some(line_of(self.0)[0])
            } else {
                None::<Lan>
            },
    {
        match &self.0.data {
            Data::Children { children, .. } => {
                if children.len() > 0 {
                    Some(children[0].0)
                } else {
                    None
                }
            },
            _ => None,
        }
    }

    /// The score the last search gave the root.
    pub fn score(&self) -> (r: Option<Score>)
        ensures
            r == self.0.score,
    {
        self.0.score
    }

    /// The best line: the first child's move, then the best line below it.
    pub fn best_line(&self) -> (r: Vec<Lan>)
        ensures
            r@ == line_of(self.0),
    {
        let mut line = Vec::new();
        push_line(&self.0, &mut line);
        proof {
            assert(line@ =~= line_of(self.0));
        }
        line
    }
}

} // verus!
