//! A one-player push-your-luck dice game: roll a die to add its pips to the score,
//! or stop. The game ends once the player stops or the score reaches 20.
use vstd::prelude::*;
use crate::text::{push_str, push_dec, dec};

verus! {

/// The score at which the game ends by itself.
pub const CAP: i64 = 20;

#[derive(Clone, Copy, Debug, PartialEq, Eq, Structural)]
pub enum DiceMove {
    Roll,
    Stop,
    /// The die came up with this many pips.
    Die(u8),
}

#[derive(Clone, Copy, Debug)]
pub struct DiceGame {
    pub score: i64,
    /// A roll is in flight: the next move is the die's face.
    pub pending_roll: bool,
    pub stopped: bool,
}

impl DiceGame {
    pub fn new(score: i64) -> (g: Self)
        ensures
            g.score == score,
            !g.pending_roll,
            !g.stopped,
    {
        DiceGame { score, pending_roll: false, stopped: false }
    }

    /// The position after `m`.
    pub open spec fn after(self, m: DiceMove) -> DiceGame {
        match m {
            DiceMove::Roll => DiceGame { pending_roll: true, ..self },
            DiceMove::Stop => DiceGame { stopped: true, ..self },
            DiceMove::Die(v) => DiceGame { score: (self.score + v) as i64, pending_roll: false, ..self },
        }
    }

    pub open spec fn over(&self) -> bool {
        self.pending_roll || self.stopped || self.score >= CAP
    }

    /// Roll or stop while the game runs; nothing while a roll is in flight, after a
    /// stop, or from 20 points on.
    pub fn available_moves(&self) -> (v: Vec<DiceMove>)
        ensures
            self.over() ==> v@ == Seq::<DiceMove>::empty(),
            !self.over() ==> v@ == seq![DiceMove::Roll, DiceMove::Stop],
    {
        if self.pending_roll || self.stopped || self.score >= 20 {
            Vec::new()
        } else {
            let mut v: Vec<DiceMove> = Vec::new();
            v.push(DiceMove::Roll);
            v.push(DiceMove::Stop);
            v
        }
    }

    pub fn make_move(&mut self, mov: &DiceMove)
        requires
            old(self).score + 255 <= i64::MAX,
        ensures
            *final(self) == old(self).after(*mov),
    {
        match mov {
            DiceMove::Roll => self.pending_roll = true,
            DiceMove::Stop => self.stopped = true,
            DiceMove::Die(v) => {
                self.score = self.score + *v as i64;
                self.pending_roll = false;
            },
        }
    }

    /// The six faces of a roll in flight, each equally likely; `None` when no roll
    /// is in flight.
    pub fn chance_outcomes(&self) -> (r: Option<Vec<DiceMove>>)
        ensures
            r is None <==> !self.pending_roll,
            r matches Some(v) ==> v@.len() == 6 && forall|i: int|
                0 <= i < 6 ==> #[trigger] v@[i] == DiceMove::Die((i + 1) as u8),
    {
        if !self.pending_roll {
            return None;
        }
        let mut v: Vec<DiceMove> = Vec::new();
        let mut i: u8 = 1;
        while i <= 6
            invariant
                1 <= i <= 7,
                v@.len() == i - 1,
                forall|j: int| 0 <= j < v@.len() ==> #[trigger] v@[j] == DiceMove::Die((j + 1) as u8),
            decreases 7 - i,
        {
            v.push(DiceMove::Die(i));
            i += 1;
        }
        Some(v)
    }
}

/// Text of a move: `Roll`, `Stop` or `Die(n)`.
pub open spec fn move_text(m: DiceMove) -> Seq<char> {
    match m {
        DiceMove::Roll => seq!['R', 'o', 'l', 'l'],
        DiceMove::Stop => seq!['S', 't', 'o', 'p'],
        DiceMove::Die(n) => seq!['D', 'i', 'e', '('] + dec(n as nat) + seq![')'],
    }
}

impl DiceMove {
    pub fn encode(&self) -> (s: String)
        ensures
            s@ == move_text(*self),
    {
        let mut s = String::new();
        match self {
            DiceMove::Roll => {
                push_str(&mut s, "Roll");
                proof {
                    reveal_strlit("Roll");
                }
            },
            DiceMove::Stop => {
                push_str(&mut s, "Stop");
                proof {
                    reveal_strlit("Stop");
                }
            },
            DiceMove::Die(n) => {
                push_str(&mut s, "Die(");
                proof {
                    reveal_strlit("Die(");
                }
                push_dec(&mut s, *n as u64);
                push_str(&mut s, ")");
                proof {
                    reveal_strlit(")");
                }
            },
        }
        assert(s@ =~= move_text(*self));
        s
    }
}

/// A roll followed by its face adds the face's pips and leaves the game running
/// exactly when the new score is below 20; a stop ends the game.
pub proof fn lemma_roll_then_face(g: DiceGame, v: u8)
    requires
        !g.over(),
        g.score + v <= i64::MAX,
    ensures
        g.after(DiceMove::Roll).after(DiceMove::Die(v)) == (DiceGame { score: (g.score + v) as i64, ..g }),
        g.after(DiceMove::Roll).after(DiceMove::Die(v)).over() <==> g.score + v >= CAP,
        g.after(DiceMove::Stop).over(),
{
}

} // verus!
