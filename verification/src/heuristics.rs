//! Position scores: estimated advantages and won games, and their order.
use vstd::prelude::*;
use crate::color::Color;
use crate::end_state::EndState;
use crate::misc::{nibbles, CompoundI8};

verus! {

/// How far the pawns have advanced, as four packed pairs.
#[derive(Debug, Clone, Copy, PartialEq, Eq, Hash)]
pub struct PawnAdvancement(pub [CompoundI8; 4]);

/// An estimated advantage, compared field by field in this order.
#[derive(Debug, Clone, Copy, PartialEq, Eq, Hash)]
pub struct Estimated {
    pub material: i8,
    pub king_safety: i8,
    pub square_control: i16,
    pub pawn_advancement: PawnAdvancement,
}

/// The score of a position: a won game, or an estimate.
#[derive(Debug, Clone, Copy, PartialEq, Eq, Hash)]
pub enum Score {
    Win(Color),
    Estimated(Estimated),
}

/// A score in centipawns, or a won game.
#[derive(Debug, Clone, Copy, PartialEq, Eq, Hash, Structural)]
pub enum Centipawn {
    Centipawn(i32),
    Win(Color),
}

/// `a` comes before `b`: by the left numbers, then the right ones.
pub open spec fn compound_less(a: CompoundI8, b: CompoundI8) -> bool {
    a.left_value() < b.left_value() || (a.left_value() == b.left_value() && a.right_value()
        < b.right_value())
}

/// The pairs of `a` and `b` agree.
pub open spec fn compound_same(a: CompoundI8, b: CompoundI8) -> bool {
    a.left_value() == b.left_value() && a.right_value() == b.right_value()
}

/// `a` comes before `b`, comparing the pairs from index `i` on in turn.
pub open spec fn pawns_less_from(a: PawnAdvancement, b: PawnAdvancement, i: int) -> bool
    decreases 4 - i,
{
    if i < 0 || i >= 4 {
        false
    } else if compound_less(a.0@[i], b.0@[i]) {
        true
    } else if compound_same(a.0@[i], b.0@[i]) {
        pawns_less_from(a, b, i + 1)
    } else {
        false
    }
}

/// `a` comes before `b`, comparing the pairs in turn.
pub open spec fn pawns_less(a: PawnAdvancement, b: PawnAdvancement) -> bool {
    pawns_less_from(a, b, 0)
}

/// `a` is worth less than `b` for white: material first, then king safety,
/// square control and pawn advancement.
pub open spec fn estimated_less(a: Estimated, b: Estimated) -> bool {
    ||| a.material < b.material
    ||| a.material == b.material && a.king_safety < b.king_safety
    ||| a.material == b.material && a.king_safety == b.king_safety && a.square_control
        < b.square_control
    ||| a.material == b.material && a.king_safety == b.king_safety && a.square_control
        == b.square_control && pawns_less(a.pawn_advancement, b.pawn_advancement)
}

/// Estimates are ordered by material first: less material is worth less,
/// whatever the other fields; on equal material, king safety decides; on
/// equal material and king safety, square control decides. The same order
/// holds between the scores that carry them.
pub proof fn lemma_estimates_material_first(a: Estimated, b: Estimated)
    ensures
        a.material < b.material ==> estimated_less(a, b) && !estimated_less(b, a),
        a.material == b.material && a.king_safety < b.king_safety ==> estimated_less(a, b) && !estimated_less(b, a),
        a.material == b.material && a.king_safety == b.king_safety && a.square_control < b.square_control
            ==> estimated_less(a, b) && !estimated_less(b, a),
        score_less(Score::Estimated(a), Score::Estimated(b)) == estimated_less(a, b),
        a.material < b.material ==> score_less(Score::Estimated(a), Score::Estimated(b)) && !score_less(
            Score::Estimated(b),
            Score::Estimated(a),
        ),
{
}

/// Where a score stands among wins and estimates: a black win lowest, a
/// white win highest, estimates between.
pub open spec fn score_rank(s: Score) -> int {
    match s {
        Score::Win(Color::Black) => -1,
        Score::Estimated(_) => 0,
        Score::Win(Color::White) => 1,
    }
}

/// `a` is worse than `b` for white.
pub open spec fn score_less(a: Score, b: Score) -> bool {
    if score_rank(a) != score_rank(b) {
        score_rank(a) < score_rank(b)
    } else {
        match (a, b) {
            (Score::Estimated(x), Score::Estimated(y)) => estimated_less(x, y),
            _ => false,
        }
    }
}

/// The value of an estimate in centipawns.
pub open spec fn estimated_centipawn(e: Estimated) -> int {
    e.material * 100 + e.king_safety * 10 + e.square_control
}

/// The pairs of a pawn advancement fit their nibbles once negated.
pub open spec fn pawns_negatable(p: PawnAdvancement) -> bool {
    forall|i: int| 0 <= i < 4 ==> #[trigger] p.0@[i].left_value() > -8 && p.0@[i].right_value() > -8
}

impl PawnAdvancement {
    /// Packs eight numbers from -8 to 7, two by two.
    pub fn new(array: [i8; 8]) -> (r: PawnAdvancement)
        requires
            forall|i: int| 0 <= i < 8 ==> -8 <= #[trigger] array@[i] < 8,
        ensures
            forall|i: int|
                0 <= i < 4 ==> #[trigger] r.0@[i].left_value() == array@[2 * i] && r.0@[i].right_value()
                    == array@[2 * i + 1],
    {
        let r = PawnAdvancement(
            [
                CompoundI8::new(array[0], array[1]),
                CompoundI8::new(array[2], array[3]),
                CompoundI8::new(array[4], array[5]),
                CompoundI8::new(array[6], array[7]),
            ],
        );
        proof {
            assert forall|i: int| 0 <= i < 4 implies #[trigger] r.0@[i].left_value() == array@[2 * i]
                && r.0@[i].right_value() == array@[2 * i + 1] by {
                if i == 0 {
                } else if i == 1 {
                } else if i == 2 {
                } else {
                }
            }
        }
        r
    }

    /// Every pair negated.
    pub fn negated(self) -> (r: PawnAdvancement)
        requires
            pawns_negatable(self),
        ensures
            forall|i: int|
                0 <= i < 4 ==> #[trigger] r.0@[i].left_value() == -self.0@[i].left_value()
                    && r.0@[i].right_value() == -self.0@[i].right_value(),
    {
        proof {
            assert(self.0@[0].left_value() > -8);
            assert(self.0@[1].left_value() > -8);
            assert(self.0@[2].left_value() > -8);
            assert(self.0@[3].left_value() > -8);
        }
        let r = PawnAdvancement(
            [self.0[0].negated(), self.0[1].negated(), self.0[2].negated(), self.0[3].negated()],
        );
        proof {
            assert forall|i: int| 0 <= i < 4 implies #[trigger] r.0@[i].left_value() == -self.0@[i].left_value()
                && r.0@[i].right_value() == -self.0@[i].right_value() by {
                if i == 0 {
                } else if i == 1 {
                } else if i == 2 {
                } else {
                }
            }
        }
        r
    }

    /// The pairwise sum.
    pub fn plus(self, rhs: PawnAdvancement) -> (r: PawnAdvancement)
        requires
            forall|i: int|
                0 <= i < 4 ==> nibbles(
                    #[trigger] self.0@[i].left_value() + rhs.0@[i].left_value(),
                    self.0@[i].right_value() + rhs.0@[i].right_value(),
                ),
        ensures
            forall|i: int|
                0 <= i < 4 ==> #[trigger] r.0@[i].left_value() == self.0@[i].left_value() + rhs.0@[i].left_value()
                    && r.0@[i].right_value() == self.0@[i].right_value() + rhs.0@[i].right_value(),
    {
        proof {
            assert(nibbles(self.0@[0].left_value() + rhs.0@[0].left_value(), self.0@[0].right_value() + rhs.0@[0].right_value()));
            assert(nibbles(self.0@[1].left_value() + rhs.0@[1].left_value(), self.0@[1].right_value() + rhs.0@[1].right_value()));
            assert(nibbles(self.0@[2].left_value() + rhs.0@[2].left_value(), self.0@[2].right_value() + rhs.0@[2].right_value()));
            assert(nibbles(self.0@[3].left_value() + rhs.0@[3].left_value(), self.0@[3].right_value() + rhs.0@[3].right_value()));
        }
        let r = PawnAdvancement(
            [
                self.0[0].plus(rhs.0[0]),
                self.0[1].plus(rhs.0[1]),
                self.0[2].plus(rhs.0[2]),
                self.0[3].plus(rhs.0[3]),
            ],
        );
        proof {
            assert forall|i: int| 0 <= i < 4 implies #[trigger] r.0@[i].left_value() == self.0@[i].left_value() + rhs.0@[i].left_value()
                && r.0@[i].right_value() == self.0@[i].right_value() + rhs.0@[i].right_value() by {
                if i == 0 {
                } else if i == 1 {
                } else if i == 2 {
                } else {
                }
            }
        }
        r
    }

    /// The pairwise difference.
    pub fn minus(self, rhs: PawnAdvancement) -> (r: PawnAdvancement)
        requires
            forall|i: int|
                0 <= i < 4 ==> nibbles(
                    #[trigger] self.0@[i].left_value() - rhs.0@[i].left_value(),
                    self.0@[i].right_value() - rhs.0@[i].right_value(),
                ),
        ensures
            forall|i: int|
                0 <= i < 4 ==> #[trigger] r.0@[i].left_value() == self.0@[i].left_value() - rhs.0@[i].left_value()
                    && r.0@[i].right_value() == self.0@[i].right_value() - rhs.0@[i].right_value(),
    {
        proof {
            assert(nibbles(self.0@[0].left_value() - rhs.0@[0].left_value(), self.0@[0].right_value() - rhs.0@[0].right_value()));
            assert(nibbles(self.0@[1].left_value() - rhs.0@[1].left_value(), self.0@[1].right_value() - rhs.0@[1].right_value()));
            assert(nibbles(self.0@[2].left_value() - rhs.0@[2].left_value(), self.0@[2].right_value() - rhs.0@[2].right_value()));
            assert(nibbles(self.0@[3].left_value() - rhs.0@[3].left_value(), self.0@[3].right_value() - rhs.0@[3].right_value()));
        }
        let r = PawnAdvancement(
            [
                self.0[0].minus(rhs.0[0]),
                self.0[1].minus(rhs.0[1]),
                self.0[2].minus(rhs.0[2]),
                self.0[3].minus(rhs.0[3]),
            ],
        );
        proof {
            assert forall|i: int| 0 <= i < 4 implies #[trigger] r.0@[i].left_value() == self.0@[i].left_value() - rhs.0@[i].left_value()
                && r.0@[i].right_value() == self.0@[i].right_value() - rhs.0@[i].right_value() by {
                if i == 0 {
                } else if i == 1 {
                } else if i == 2 {
                } else {
                }
            }
        }
        r
    }

    /// Whether this comes before `other`, as `pawns_less` says.
    pub fn is_less(self, other: PawnAdvancement) -> (r: bool)
        ensures
            r == pawns_less(self, other),
    {
        let mut i: usize = 0;
        while i < 4
            invariant
                0 <= i <= 4,
                pawns_less(self, other) == pawns_less_from(self, other, i as int),
            decreases 4 - i,
        {
            let a = self.0[i];
            let b = other.0[i];
            let (al, ar, bl, br) = (a.left(), a.right(), b.left(), b.right());
            if al < bl || (al == bl && ar < br) {
                return true;
            }
            if !(al == bl && ar == br) {
                return false;
            }
            i = i + 1;
        }
        false
    }
}

impl Estimated {
    /// The estimate in centipawns: material counts a hundred, king safety ten,
    /// square control one.
    pub fn centipawn(self) -> (r: i32)
        ensures
            r == estimated_centipawn(self),
    {
        self.material as i32 * 100 + self.king_safety as i32 * 10 + self.square_control as i32
    }

    /// Whether this is worth less than `other`, as `estimated_less` says.
    pub fn is_less(self, other: Estimated) -> (r: bool)
        ensures
            r == estimated_less(self, other),
    {
        if self.material != other.material {
            return self.material < other.material;
        }
        if self.king_safety != other.king_safety {
            return self.king_safety < other.king_safety;
        }
        if self.square_control != other.square_control {
            return self.square_control < other.square_control;
        }
        self.pawn_advancement.is_less(other.pawn_advancement)
    }

    /// The field by field sum.
    pub fn plus(self, rhs: Estimated) -> (r: Estimated)
        requires
            i8::MIN <= self.material + rhs.material <= i8::MAX,
            i8::MIN <= self.king_safety + rhs.king_safety <= i8::MAX,
            i16::MIN <= self.square_control + rhs.square_control <= i16::MAX,
            forall|i: int|
                0 <= i < 4 ==> nibbles(
                    #[trigger] self.pawn_advancement.0@[i].left_value() + rhs.pawn_advancement.0@[i].left_value(),
                    self.pawn_advancement.0@[i].right_value() + rhs.pawn_advancement.0@[i].right_value(),
                ),
        ensures
            r.material == self.material + rhs.material,
            r.king_safety == self.king_safety + rhs.king_safety,
            r.square_control == self.square_control + rhs.square_control,
            forall|i: int|
                0 <= i < 4 ==> #[trigger] r.pawn_advancement.0@[i].left_value()
                    == self.pawn_advancement.0@[i].left_value() + rhs.pawn_advancement.0@[i].left_value()
                    && r.pawn_advancement.0@[i].right_value() == self.pawn_advancement.0@[i].right_value()
                    + rhs.pawn_advancement.0@[i].right_value(),
    {
        Estimated {
            king_safety: self.king_safety + rhs.king_safety,
            pawn_advancement: self.pawn_advancement.plus(rhs.pawn_advancement),
            material: self.material + rhs.material,
            square_control: self.square_control + rhs.square_control,
        }
    }

    /// The field by field difference.
    pub fn minus(self, rhs: Estimated) -> (r: Estimated)
        requires
            i8::MIN <= self.material - rhs.material <= i8::MAX,
            i8::MIN <= self.king_safety - rhs.king_safety <= i8::MAX,
            i16::MIN <= self.square_control - rhs.square_control <= i16::MAX,
            forall|i: int|
                0 <= i < 4 ==> nibbles(
                    #[trigger] self.pawn_advancement.0@[i].left_value() - rhs.pawn_advancement.0@[i].left_value(),
                    self.pawn_advancement.0@[i].right_value() - rhs.pawn_advancement.0@[i].right_value(),
                ),
        ensures
            r.material == self.material - rhs.material,
            r.king_safety == self.king_safety - rhs.king_safety,
            r.square_control == self.square_control - rhs.square_control,
            forall|i: int|
                0 <= i < 4 ==> #[trigger] r.pawn_advancement.0@[i].left_value()
                    == self.pawn_advancement.0@[i].left_value() - rhs.pawn_advancement.0@[i].left_value()
                    && r.pawn_advancement.0@[i].right_value() == self.pawn_advancement.0@[i].right_value()
                    - rhs.pawn_advancement.0@[i].right_value(),
    {
        Estimated {
            king_safety: self.king_safety - rhs.king_safety,
            pawn_advancement: self.pawn_advancement.minus(rhs.pawn_advancement),
            material: self.material - rhs.material,
            square_control: self.square_control - rhs.square_control,
        }
    }

    /// No advantage to either side.
    pub fn even() -> (r: Estimated)
        ensures
            r.material == 0,
            r.king_safety == 0,
            r.square_control == 0,
            forall|i: int|
                0 <= i < 4 ==> #[trigger] r.pawn_advancement.0@[i].left_value() == 0
                    && r.pawn_advancement.0@[i].right_value() == 0,
    {
        let z = CompoundI8::zero();
        let r = Estimated {
            material: 0,
            king_safety: 0,
            square_control: 0,
            pawn_advancement: PawnAdvancement([z, z, z, z]),
        };
        proof {
            assert forall|i: int| 0 <= i < 4 implies #[trigger] r.pawn_advancement.0@[i].left_value() == 0
                && r.pawn_advancement.0@[i].right_value() == 0 by {
                assert(r.pawn_advancement.0@[i] == z);
            }
        }
        r
    }
}

/// `r` is the score of a finished game: the winner's win, or an even
/// estimate for a draw.
pub open spec fn end_score(end_state: EndState, r: Score) -> bool {
    match end_state {
        EndState::Win(c) => r == Score::Win(c),
        EndState::Draw => r matches Score::Estimated(e) && e.material == 0 && e.king_safety == 0
            && e.square_control == 0 && forall|i: int|
            0 <= i < 4 ==> #[trigger] e.pawn_advancement.0@[i].left_value() == 0
                && e.pawn_advancement.0@[i].right_value() == 0,
    }
}

impl Score {
    /// A win for white.
    pub fn white_wins() -> (r: Score)
        ensures
            r == Score::Win(Color::White),
    {
        Score::Win(Color::White)
    }

    /// A win for black.
    pub fn black_wins() -> (r: Score)
        ensures
            r == Score::Win(Color::Black),
    {
        Score::Win(Color::Black)
    }

    /// The score of a finished game: the winner's win, or an even estimate for a draw.
    pub fn from_end_state(end_state: EndState) -> (r: Score)
        ensures
            end_score(end_state, r),
    {
        match end_state {
            EndState::Win(color) => Score::Win(color),
            EndState::Draw => Score::Estimated(Estimated::even()),
        }
    }

    /// Whether the score is a won game.
    pub fn is_win(self) -> (r: bool)
        ensures
            r == (self is Win),
    {
        match self {
            Score::Win(_) => true,
            Score::Estimated(_) => false,
        }
    }

    /// The score in centipawns, or the win.
    pub fn centipawn(self) -> (r: Centipawn)
        ensures
            r == match self {
                Score::Win(c) => Centipawn::Win(c),
                Score::Estimated(e) => Centipawn::Centipawn(estimated_centipawn(e) as i32),
            },
    {
        match self {
            Score::Win(color) => Centipawn::Win(color),
            Score::Estimated(estimated) => Centipawn::Centipawn(estimated.centipawn()),
        }
    }

    /// Whether this is worse than `other` for white, as `score_less` says.
    pub fn is_less(self, other: Score) -> (r: bool)
        ensures
            r == score_less(self, other),
    {
        match (self, other) {
            (Score::Estimated(a), Score::Estimated(b)) => a.is_less(b),
            (Score::Win(Color::Black), Score::Win(Color::Black)) => false,
            (Score::Win(Color::White), Score::Win(Color::White)) => false,
            (_, Score::Win(Color::Black)) => false,
            (Score::Win(Color::White), _) => false,
            _ => true,
        }
    }
}

/// The order of pawn advancements is a strict total order on the pairs' values.
proof fn lemma_pawns_order(a: PawnAdvancement, b: PawnAdvancement, c: PawnAdvancement, i: int)
    requires
        0 <= i <= 4,
    ensures
        !(pawns_less_from(a, b, i) && pawns_less_from(b, a, i)),
        pawns_less_from(a, b, i) && pawns_less_from(b, c, i) ==> pawns_less_from(a, c, i),
        !pawns_less_from(a, b, i) && !pawns_less_from(b, a, i) ==> forall|j: int|
            i <= j < 4 ==> #[trigger] compound_same(a.0@[j], b.0@[j]),
    decreases 4 - i,
{
    if i < 4 {
        lemma_pawns_order(a, b, c, i + 1);
    }
}

/// Pawn advancements not below one another stay so along a chain.
proof fn lemma_pawns_not_below(a: PawnAdvancement, b: PawnAdvancement, c: PawnAdvancement, i: int)
    requires
        0 <= i <= 4,
    ensures
        !pawns_less_from(a, b, i) && !pawns_less_from(b, c, i) ==> !pawns_less_from(a, c, i),
    decreases 4 - i,
{
    if i < 4 {
        lemma_pawns_not_below(a, b, c, i + 1);
    }
}

/// Scores not below one another stay so along a chain: where `b` is not
/// below `a` and `c` not below `b`, `c` is not below `a`.
pub proof fn lemma_score_not_below(a: Score, b: Score, c: Score)
    ensures
        !score_less(a, b) && !score_less(b, c) ==> !score_less(a, c),
{
    if let (Score::Estimated(x), Score::Estimated(y), Score::Estimated(z)) = (a, b, c) {
        lemma_pawns_not_below(x.pawn_advancement, y.pawn_advancement, z.pawn_advancement, 0);
    }
}

/// Scores are totally ordered: no score is below itself, the order is
/// transitive, and two scores neither of which is below the other have the
/// same rank and, for estimates, the same values.
pub proof fn lemma_score_order(a: Score, b: Score, c: Score)
    ensures
        !score_less(a, a),
        score_less(a, b) ==> !score_less(b, a),
        score_less(a, b) && score_less(b, c) ==> score_less(a, c),
        !score_less(a, b) && !score_less(b, a) ==> score_rank(a) == score_rank(b),
{
    if let (Score::Estimated(x), Score::Estimated(y)) = (a, b) {
        lemma_pawns_order(x.pawn_advancement, y.pawn_advancement, x.pawn_advancement, 0);
        lemma_pawns_order(x.pawn_advancement, x.pawn_advancement, x.pawn_advancement, 0);
    }
    if let (Score::Estimated(x), Score::Estimated(y), Score::Estimated(z)) = (a, b, c) {
        lemma_pawns_order(x.pawn_advancement, y.pawn_advancement, z.pawn_advancement, 0);
    }
    if let Score::Estimated(x) = a {
        lemma_pawns_order(x.pawn_advancement, x.pawn_advancement, x.pawn_advancement, 0);
    }
}

} // verus!
