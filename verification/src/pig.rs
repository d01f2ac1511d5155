//! Pig, the press-your-luck dice game: roll to build a turn total, a 1 wipes it and
//! ends the turn, hold to bank it. The first player to reach the target wins.
use vstd::prelude::*;
use rand::rngs::SmallRng;
use crate::rng::below;
use crate::text::{push_char, push_dec, push_joined_u32, join_nums, u32s, dec, chars_of, chars_eq};

verus! {

#[derive(Clone, Copy, Debug, PartialEq, Eq, Structural)]
pub enum PigMove {
    Roll,
    Hold,
    /// The die came up with this many pips.
    Die(u8),
}

#[derive(Clone, Debug)]
pub struct Pig {
    pub scores: Vec<u32>,
    pub current: u8,
    pub num_players: u8,
    pub turn_total: u32,
    /// A roll is in flight: the next move is the die's face.
    pub pending: bool,
    pub last_roll: u8,
    pub target: u32,
}

/// The player count and target of a new table: the count, read as a byte, clamped to
/// 2..=6; the target clamped to 20..=200.
pub fn settings(num_players: u32, target: u32) -> (r: (u8, u32))
    ensures
        r.0 == (if (num_players as u8) < 2 { 2 } else if (num_players as u8) > 6 { 6 } else { num_players as u8 }),
        r.1 == (if target < 20 { 20 } else if target > 200 { 200 } else { target }),
{
    let np = num_players as u8;
    let np = if np < 2 { 2 } else if np > 6 { 6 } else { np };
    let t = if target < 20 { 20 } else if target > 200 { 200 } else { target };
    (np, t)
}

impl Pig {
    pub open spec fn wf(&self) -> bool {
        &&& self.num_players >= 1
        &&& self.scores@.len() == self.num_players
        &&& self.current < self.num_players
    }

    pub open spec fn has_winner(&self) -> bool {
        exists|i: int| 0 <= i < self.scores@.len() && #[trigger] self.scores@[i] >= self.target
    }

    pub open spec fn next_player(&self) -> u8 {
        ((self.current + 1) % (self.num_players as int)) as u8
    }

    pub fn new(num_players: u8, target: u32) -> (g: Self)
        requires
            num_players >= 1,
        ensures
            g.wf(),
            g.num_players == num_players,
            g.target == target,
            forall|i: int| 0 <= i < num_players ==> #[trigger] g.scores@[i] == 0,
            g.current == 0,
            g.turn_total == 0,
            !g.pending,
            g.last_roll == 0,
    {
        let mut scores: Vec<u32> = Vec::new();
        let mut i: u8 = 0;
        while i < num_players
            invariant
                i <= num_players,
                scores@.len() == i,
                forall|j: int| 0 <= j < i ==> #[trigger] scores@[j] == 0,
            decreases num_players - i,
        {
            scores.push(0);
            i += 1;
        }
        Pig { scores, current: 0, num_players, turn_total: 0, pending: false, last_roll: 0, target }
    }

    /// The first player whose score has reached the target.
    pub fn winner(&self) -> (w: Option<u8>)
        requires
            self.wf(),
        ensures
            w is None <==> !self.has_winner(),
            w matches Some(p) ==> p < self.num_players && self.scores@[p as int] >= self.target
                && forall|j: int| 0 <= j < p ==> #[trigger] self.scores@[j] < self.target,
    {
        let mut i: usize = 0;
        while i < self.scores.len()
            invariant
                self.wf(),
                i <= self.scores@.len(),
                forall|j: int| 0 <= j < i ==> #[trigger] self.scores@[j] < self.target,
            decreases self.scores@.len() - i,
        {
            if self.scores[i] >= self.target {
                return Some(i as u8);
            }
            i += 1;
        }
        None
    }

    /// End the turn: the turn total is dropped and the next player moves.
    pub fn advance(&mut self)
        requires
            old(self).wf(),
        ensures
            *final(self) == (Pig { turn_total: 0, current: old(self).next_player(), ..*old(self) }),
            final(self).wf(),
    {
        self.turn_total = 0;
        self.current = ((self.current as u16 + 1) % self.num_players as u16) as u8;
    }

    pub fn current_player(&self) -> (p: u8)
        ensures
            p == self.current,
    {
        self.current
    }

    /// Roll or hold while no one has won and no roll is in flight.
    pub fn available_moves(&self) -> (v: Vec<PigMove>)
        requires
            self.wf(),
        ensures
            (self.has_winner() || self.pending) ==> v@ == Seq::<PigMove>::empty(),
            !(self.has_winner() || self.pending) ==> v@ == seq![PigMove::Roll, PigMove::Hold],
    {
        if self.winner().is_some() || self.pending {
            Vec::new()
        } else {
            let mut v: Vec<PigMove> = Vec::new();
            v.push(PigMove::Roll);
            v.push(PigMove::Hold);
            v
        }
    }

    /// Room for the largest face on the turn total and for banking it.
    pub open spec fn room(&self) -> bool {
        &&& self.turn_total + 255 <= u32::MAX
        &&& self.scores@[self.current as int] + self.turn_total <= u32::MAX
    }

    pub fn make_move(&mut self, m: &PigMove)
        requires
            old(self).wf(),
            old(self).room(),
        ensures
            final(self).wf(),
            final(self).num_players == old(self).num_players,
            final(self).target == old(self).target,
            *m == PigMove::Roll ==> *final(self) == (Pig { pending: true, ..*old(self) }),
            *m == PigMove::Hold ==> final(self).scores@ == old(self).scores@.update(
                old(self).current as int,
                (old(self).scores@[old(self).current as int] + old(self).turn_total) as u32,
            ) && final(self).turn_total == 0 && final(self).current == old(self).next_player()
                && final(self).pending == old(self).pending && final(self).last_roll == old(self).last_roll,
            *m matches PigMove::Die(v) ==> final(self).scores@ == old(self).scores@ && !final(self).pending
                && final(self).last_roll == v && (v == 1 ==> final(self).turn_total == 0
                && final(self).current == old(self).next_player()) && (v != 1 ==> final(self).turn_total
                == old(self).turn_total + v && final(self).current == old(self).current),
    {
        match m {
            PigMove::Roll => self.pending = true,
            PigMove::Hold => {
                let c = self.current as usize;
                let banked = self.scores[c] + self.turn_total;
                self.scores.set(c, banked);
                self.advance();
            },
            PigMove::Die(v) => {
                self.pending = false;
                self.last_roll = *v;
                if *v == 1 {
                    self.advance();
                } else {
                    self.turn_total = self.turn_total + *v as u32;
                }
            },
        }
    }

    /// The six faces of a roll in flight, each equally likely; `None` when no roll is
    /// in flight or someone has won.
    pub fn chance_outcomes(&self) -> (r: Option<Vec<PigMove>>)
        requires
            self.wf(),
        ensures
            r is None <==> !(self.pending && !self.has_winner()),
            r matches Some(v) ==> v@.len() == 6 && forall|i: int|
                0 <= i < 6 ==> #[trigger] v@[i] == PigMove::Die((i + 1) as u8),
    {
        if !self.pending || self.winner().is_some() {
            return None;
        }
        let mut v: Vec<PigMove> = Vec::new();
        let mut i: u8 = 1;
        while i <= 6
            invariant
                1 <= i <= 7,
                v@.len() == i - 1,
                forall|j: int| 0 <= j < v@.len() ==> #[trigger] v@[j] == PigMove::Die((j + 1) as u8),
            decreases 7 - i,
        {
            v.push(PigMove::Die(i));
            i += 1;
        }
        Some(v)
    }
}

/// The largest score among players `0..n` other than `p`, or 0 when there is none.
pub open spec fn best_other(s: Seq<u32>, p: int, n: int) -> int
    decreases n,
{
    if n <= 0 {
        0
    } else {
        let b = best_other(s, p, n - 1);
        if n - 1 != p && s[n - 1] > b {
            s[n - 1] as int
        } else {
            b
        }
    }
}

proof fn lemma_best_other_bounds(s: Seq<u32>, p: int, n: int)
    requires
        0 <= n <= s.len(),
    ensures
        0 <= best_other(s, p, n) <= u32::MAX,
    decreases n,
{
    if n > 0 {
        lemma_best_other_bounds(s, p, n - 1);
    }
}

impl Pig {
    /// How good the position is for player `p`: the player's score, plus the turn
    /// total when it is `p`'s turn, less the best score among the others.
    pub open spec fn eval_spec(&self, p: int) -> int {
        self.scores@[p] + (if p == self.current { self.turn_total as int } else { 0 })
            - best_other(self.scores@, p, self.scores@.len() as int)
    }

    pub fn eval_for(&self, p: u8) -> (e: i64)
        requires
            self.wf(),
            p < self.num_players,
        ensures
            e == self.eval_spec(p as int),
    {
        let mut best: i64 = 0;
        let mut i: usize = 0;
        while i < self.scores.len()
            invariant
                self.wf(),
                i <= self.scores@.len(),
                best == best_other(self.scores@, p as int, i as int),
            decreases self.scores@.len() - i,
        {
            proof {
                lemma_best_other_bounds(self.scores@, p as int, i as int);
            }
            if i != p as usize && self.scores[i] as i64 > best {
                best = self.scores[i] as i64;
            }
            i += 1;
        }
        let mine = self.scores[p as usize] as i64 + if p == self.current { self.turn_total as i64 } else { 0 };
        proof {
            lemma_best_other_bounds(self.scores@, p as int, self.scores@.len() as int);
        }
        mine - best
    }
}

/// Text of a move: `Roll`, `Hold` or `Die(n)`.
pub open spec fn move_text(m: PigMove) -> Seq<char> {
    match m {
        PigMove::Roll => seq!['R', 'o', 'l', 'l'],
        PigMove::Hold => seq!['H', 'o', 'l', 'd'],
        PigMove::Die(n) => seq!['D', 'i', 'e', '('] + dec(n as nat) + seq![')'],
    }
}

impl PigMove {
    pub fn encode(&self) -> (s: String)
        ensures
            s@ == move_text(*self),
    {
        let mut s = String::new();
        match self {
            PigMove::Roll => {
                crate::text::push_str(&mut s, "Roll");
                proof {
                    reveal_strlit("Roll");
                }
            },
            PigMove::Hold => {
                crate::text::push_str(&mut s, "Hold");
                proof {
                    reveal_strlit("Hold");
                }
            },
            PigMove::Die(n) => {
                crate::text::push_str(&mut s, "Die(");
                proof {
                    reveal_strlit("Die(");
                }
                push_dec(&mut s, *n as u64);
                push_char(&mut s, ')');
            },
        }
        assert(s@ =~= move_text(*self));
        s
    }
}

impl Pig {
    /// `scores|turn_total|last_roll|target`, the scores joined by commas.
    pub open spec fn board_text(&self) -> Seq<char> {
        join_nums(u32s(self.scores@), ',') + seq!['|'] + dec(self.turn_total as nat) + seq!['|'] + dec(
            self.last_roll as nat,
        ) + seq!['|'] + dec(self.target as nat)
    }

    pub fn board_string(&self) -> (s: String)
        ensures
            s@ == self.board_text(),
    {
        let mut s = String::new();
        push_joined_u32(&mut s, &self.scores, ',');
        push_char(&mut s, '|');
        push_dec(&mut s, self.turn_total as u64);
        push_char(&mut s, '|');
        push_dec(&mut s, self.last_roll as u64);
        push_char(&mut s, '|');
        push_dec(&mut s, self.target as u64);
        assert(s@ =~= self.board_text());
        s
    }

    pub fn is_terminal(&self) -> (b: bool)
        requires
            self.wf(),
        ensures
            b == self.has_winner(),
    {
        self.winner().is_some()
    }

    /// The winner counted from 1, or empty while the game runs.
    pub fn result_string(&self) -> (s: String)
        requires
            self.wf(),
        ensures
            !self.has_winner() ==> s@ == Seq::<char>::empty(),
            self.has_winner() ==> exists|w: int|
                0 <= w < self.num_players && self.scores@[w] >= self.target && (forall|j: int|
                    0 <= j < w ==> #[trigger] self.scores@[j] < self.target) && s@ == dec((w + 1) as nat),
    {
        let mut s = String::new();
        match self.winner() {
            Some(w) => push_dec(&mut s, w as u64 + 1),
            None => {},
        }
        s
    }

    /// Play `Roll` (then the face that `rng` draws) or `Hold`; false, leaving the game
    /// unchanged, once someone has won or for any other text.
    pub fn apply_text(&mut self, mov: &str, rng: &mut SmallRng) -> (ok: bool)
        requires
            old(self).wf(),
            old(self).room(),
        ensures
            final(self).wf(),
            ok == (!old(self).has_winner() && (mov@ == move_text(PigMove::Roll) || mov@ == move_text(
                PigMove::Hold,
            ))),
            !ok ==> *final(self) == *old(self),
            ok && mov@ == move_text(PigMove::Hold) ==> final(self).scores@ == old(self).scores@.update(
                old(self).current as int,
                (old(self).scores@[old(self).current as int] + old(self).turn_total) as u32,
            ) && final(self).turn_total == 0 && final(self).current == old(self).next_player(),
            ok && mov@ == move_text(PigMove::Roll) ==> 1 <= final(self).last_roll <= 6 && !final(self).pending
                && final(self).scores@ == old(self).scores@ && (final(self).last_roll == 1 ==> final(self).turn_total
                == 0 && final(self).current == old(self).next_player()) && (final(self).last_roll != 1
                ==> final(self).turn_total == old(self).turn_total + final(self).last_roll
                && final(self).current == old(self).current),
            ok ==> final(self).num_players == old(self).num_players && final(self).target == old(self).target,
    {
        if self.winner().is_some() {
            return false;
        }
        let cs = chars_of(mov);
        let roll: [char; 4] = ['R', 'o', 'l', 'l'];
        let hold: [char; 4] = ['H', 'o', 'l', 'd'];
        if chars_eq(cs.as_slice(), &roll) {
            assert(roll@ =~= move_text(PigMove::Roll));
            self.make_move(&PigMove::Roll);
            let v = below(rng, 6) as u8 + 1;
            self.make_move(&PigMove::Die(v));
            true
        } else if chars_eq(cs.as_slice(), &hold) {
            assert(hold@ =~= move_text(PigMove::Hold));
            self.make_move(&PigMove::Hold);
            true
        } else {
            assert(roll@ =~= move_text(PigMove::Roll));
            assert(hold@ =~= move_text(PigMove::Hold));
            false
        }
    }
}

/// Banking never lowers a score: after any move every player's score is at least
/// what it was.
pub proof fn lemma_scores_never_drop(before: Pig, after: Pig, m: PigMove)
    requires
        before.wf(),
        after.scores@.len() == before.scores@.len(),
        m == PigMove::Hold ==> after.scores@ == before.scores@.update(
            before.current as int,
            (before.scores@[before.current as int] + before.turn_total) as u32,
        ),
        m != PigMove::Hold ==> after.scores@ == before.scores@,
        before.room(),
    ensures
        forall|i: int| 0 <= i < before.scores@.len() ==> #[trigger] after.scores@[i] >= before.scores@[i],
{
}

} // verus!
