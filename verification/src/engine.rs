//! The decisions of the engine's search loop: the depth a search starts at,
//! when iterative deepening ends, and which moves a finished search reports
//! and keeps to ponder on.
use vstd::prelude::*;
use crate::heuristics::Score;
use crate::lan::Lan;

verus! {

/// Whether deepening ends after the iteration at depth `i`, which visited
/// `nodes` positions: the search was told to stop, it reached its depth
/// limit or its node limit, or it found a won game within the plies of a
/// `go mate` search.
pub open spec fn search_ends(
    i: u32,
    nodes: u32,
    stopped: bool,
    score: Option<Score>,
    depth: Option<u32>,
    max_nodes: Option<u32>,
    mate_in_plies: Option<u32>,
) -> bool {
    ||| stopped
    ||| depth matches Some(d) && i >= d
    ||| max_nodes matches Some(n) && nodes >= n
    ||| score matches Some(s) && (s is Win && (mate_in_plies matches Some(p) && i <= p))
}

/// What the engine keeps between commands: the depth its last search
/// reached, and the move it last found to ponder on.
#[derive(Debug, Clone, Copy)]
pub struct EngineState {
    pub last_depth: u32,
    pub ponder: Option<Lan>,
}

impl EngineState {
    /// A depth is at least one ply.
    pub open spec fn wf(self) -> bool {
        self.last_depth >= 1
    }

    /// The state of a fresh engine: depth one, nothing to ponder on.
    pub fn new() -> (r: Self)
        ensures
            r.wf(),
            r.last_depth == 1,
            r.ponder is None,
    {
        EngineState { last_depth: 1, ponder: None }
    }

    /// A new position: the next search starts again from the first ply.
    pub fn set_board(&mut self)
        ensures
            final(self).wf(),
            final(self).last_depth == 1,
            final(self).ponder == old(self).ponder,
    {
        self.last_depth = 1;
    }

    /// A move played on the position: what was searched below it is one ply
    /// shallower, and never less than one ply.
    pub fn move_piece(&mut self)
        ensures
            final(self).wf(),
            final(self).last_depth == if old(self).last_depth > 1 {
                old(self).last_depth - 1
            } else {
                1
            },
            final(self).ponder == old(self).ponder,
    {
        if self.last_depth > 1 {
            self.last_depth = self.last_depth - 1;
        } else {
            self.last_depth = 1;
        }
    }

    /// The depth of the first iteration of a search: where a best move is
    /// already known, the depth of the last search, capped by the depth
    /// limit; otherwise the first ply.
    pub fn first_depth(&self, has_best_move: bool, depth: Option<u32>) -> (r: u32)
        requires
            self.wf(),
            depth matches Some(d) ==> d >= 1,
        ensures
            r == if has_best_move {
                match depth {
                    Some(d) => if d < self.last_depth {
                        d
                    } else {
                        self.last_depth
                    },
                    None => self.last_depth,
                }
            } else {
                1
            },
            r >= 1,
            r <= self.last_depth,
    {
        if has_best_move {
            match depth {
                Some(d) => if d < self.last_depth {
                    d
                } else {
                    self.last_depth
                },
                None => self.last_depth,
            }
        } else {
            1
        }
    }

    /// Records that the iteration at depth `i` ran, and says whether the
    /// search ends after it.
    pub fn iteration_done(
        &mut self,
        i: u32,
        nodes: u32,
        stopped: bool,
        score: Option<Score>,
        depth: Option<u32>,
        max_nodes: Option<u32>,
        mate_in_plies: Option<u32>,
    ) -> (r: bool)
        requires
            i >= 1,
        ensures
            final(self).wf(),
            final(self).last_depth == i,
            final(self).ponder == old(self).ponder,
            r == search_ends(i, nodes, stopped, score, depth, max_nodes, mate_in_plies),
    {
        self.last_depth = i;
        let reached_depth = match depth {
            Some(d) => i >= d,
            None => false,
        };
        let reached_nodes = match max_nodes {
            Some(n) => nodes >= n,
            None => false,
        };
        let mate_found = match score {
            Some(s) => s.is_win() && match mate_in_plies {
                Some(p) => i <= p,
                None => false,
            },
            None => false,
        };
        stopped || reached_depth || reached_nodes || mate_found
    }

    /// The end of a search whose best line is `line`: the move to play is its
    /// first move and the move to ponder on its second. A move to ponder on
    /// replaces the one kept; without one, the kept move stays.
    pub fn finish(&mut self, line: &Vec<Lan>) -> (r: (Option<Lan>, Option<Lan>))
        ensures
            r.0 == if line@.len() > 0 {
                Some(line@[0])
            } else {
                None::<Lan>
            },
            r.1 == if line@.len() > 1 {
                Some(line@[1])
            } else {
                None::<Lan>
            },
            final(self).last_depth == old(self).last_depth,
            final(self).ponder == if r.1 is Some {
                r.1
            } else {
                old(self).ponder
            },
    {
        let movement = if line.len() > 0 {
            Some(line[0])
        } else {
            None
        };
        let pondered = if line.len() > 1 {
            Some(line[1])
        } else {
            None
        };
        if pondered.is_some() {
            self.ponder = pondered;
        }
        (movement, pondered)
    }
}

} // verus!
