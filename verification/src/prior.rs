//! A three-step single-player scoring game used to compare search with and without
//! move priors: each step adds 10 (A), 5 (B) or 1 (C) to the score.
use vstd::prelude::*;
use crate::text::push_str;

verus! {

#[derive(Clone, Copy, Debug, PartialEq, Eq, Structural)]
pub enum PriorMove {
    A,
    B,
    C,
}

#[derive(Clone, Copy, Debug, PartialEq, Eq, Structural)]
pub struct PriorGame {
    pub depth: u8,
    pub score: i64,
}

/// The points a move adds.
pub open spec fn gain(m: PriorMove) -> int {
    match m {
        PriorMove::A => 10,
        PriorMove::B => 5,
        PriorMove::C => 1,
    }
}

impl PriorGame {
    pub fn new() -> (g: Self)
        ensures
            g.depth == 0,
            g.score == 0,
    {
        PriorGame { depth: 0, score: 0 }
    }

    /// A, B and C until three moves have been made.
    pub fn available_moves(&self) -> (v: Vec<PriorMove>)
        ensures
            self.depth >= 3 ==> v@ == Seq::<PriorMove>::empty(),
            self.depth < 3 ==> v@ == seq![PriorMove::A, PriorMove::B, PriorMove::C],
    {
        if self.depth >= 3 {
            Vec::new()
        } else {
            let mut v: Vec<PriorMove> = Vec::new();
            v.push(PriorMove::A);
            v.push(PriorMove::B);
            v.push(PriorMove::C);
            v
        }
    }

    pub fn make_move(&mut self, m: &PriorMove)
        requires
            old(self).depth < 255,
            old(self).score + 10 <= i64::MAX,
        ensures
            final(self).depth == old(self).depth + 1,
            final(self).score == old(self).score + gain(*m),
    {
        self.depth = self.depth + 1;
        match m {
            PriorMove::A => self.score = self.score + 10,
            PriorMove::B => self.score = self.score + 5,
            PriorMove::C => self.score = self.score + 1,
        }
    }
}

/// Text of a move: `A(+10)`, `B(+5)` or `C(+1)`.
pub open spec fn move_text(m: PriorMove) -> Seq<char> {
    match m {
        PriorMove::A => seq!['A', '(', '+', '1', '0', ')'],
        PriorMove::B => seq!['B', '(', '+', '5', ')'],
        PriorMove::C => seq!['C', '(', '+', '1', ')'],
    }
}

impl PriorMove {
    pub fn encode(&self) -> (s: String)
        ensures
            s@ == move_text(*self),
    {
        let mut s = String::new();
        match self {
            PriorMove::A => {
                push_str(&mut s, "A(+10)");
                proof {
                    reveal_strlit("A(+10)");
                }
            },
            PriorMove::B => {
                push_str(&mut s, "B(+5)");
                proof {
                    reveal_strlit("B(+5)");
                }
            },
            PriorMove::C => {
                push_str(&mut s, "C(+1)");
                proof {
                    reveal_strlit("C(+1)");
                }
            },
        }
        assert(s@ =~= move_text(*self));
        s
    }
}

/// Every move adds between 1 and 10 points, so a game that has made `depth` moves
/// from the start scores between `depth` and `10 * depth`: at most 30 once over.
pub proof fn lemma_score_bounds(g: PriorGame, m: PriorMove)
    requires
        g.depth <= g.score <= 10 * g.depth,
    ensures
        g.depth + 1 <= g.score + gain(m) <= 10 * (g.depth + 1),
{
}

} // verus!
