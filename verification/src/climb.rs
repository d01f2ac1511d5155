//! Climb: the press-your-luck "push up the mountain" dice game. Roll four dice, pair
//! them into two column sums, and advance temporary runners up the columns. STOP to
//! bank the runners; BUST (a roll with no legal pairing) wipes everything gained this
//! turn. Reach the top of a column and bank it to claim it; claimed columns are dead
//! for everyone. First to claim the target number of columns wins.
//!
//! Each roll is a chance event over the four dice; the engine here holds the rules,
//! the chance outcomes with their weights, the heuristic score and the text surface.
use vstd::prelude::*;
use rand::rngs::SmallRng;
use crate::rng::below;
use crate::text::{push_all, push_str, push_char, push_dec, dec, parse_uint, parse_uint_range, chars_of, chars_eq, lemma_parse_dec, lemma_dec, is_digit};

verus! {

/// Number of columns: the eleven sums `2..=12`.
pub const NUM_COLS: usize = 11;
/// Distinct runner columns allowed per turn.
pub const MAX_RUNNERS: usize = 3;
/// Completed turns after which the game is adjudicated by claimed columns.
pub const TURN_CAP: u32 = 500;

/// Steps to the top of column `idx` (sum `idx + 2`): 3, 5, ..., 13, ..., 5, 3.
pub open spec fn height(idx: int) -> int {
    if idx <= 5 {
        3 + 2 * idx
    } else {
        3 + 2 * (10 - idx)
    }
}

/// Steps to the top of column `idx`.
pub fn height_of(idx: usize) -> (h: u8)
    requires
        idx < NUM_COLS,
    ensures
        h == height(idx as int),
{
    if idx <= 5 {
        3 + 2 * (idx as u8)
    } else {
        3 + 2 * (10 - idx as u8)
    }
}

/// Column index of a dice sum.
pub fn col_index(sum: u8) -> (idx: usize)
    requires
        2 <= sum <= 12,
    ensures
        idx == sum - 2,
{
    (sum as usize) - 2
}

#[derive(Clone, Copy, Debug, PartialEq, Eq, Structural)]
pub enum Phase {
    /// The player chooses Roll (or Stop, with runner progress this turn).
    Act,
    /// A roll is in flight: a chance event over the four dice.
    Roll,
    /// The four dice are on the table; the player chooses a pairing.
    Pair,
}

#[derive(Clone, Copy, Debug, PartialEq, Eq, Structural)]
pub enum ClimbMove {
    Roll,
    Stop,
    /// Chance outcome: the four dice, sorted ascending.
    Dice(u8, u8, u8, u8),
    /// Advance the column of sum `first` once; if `second` is `Some(s)`, advance the
    /// column of sum `s` once more (`Some(first)` steps the same column twice).
    Pair(u8, Option<u8>),
}

#[derive(Clone, Debug)]
pub struct Climb {
    pub num_players: u8,
    pub current: u8,
    pub to_win: u8,
    /// Per player, per column: banked progress, `0..=height`.
    pub banked: Vec<[u8; 11]>,
    /// Who has claimed each column (-1 = unclaimed), else the seat.
    pub claimed: [i8; 11],
    /// This turn's runners: (column index, absolute position); at most three.
    pub runners: Vec<(usize, u8)>,
    pub phase: Phase,
    /// The dice on the table (last roll), sorted; `None` at a fresh turn start.
    pub dice: Option<[u8; 4]>,
    /// The immediately preceding action was a bust.
    pub busted: bool,
    /// Completed turns (a turn ends on Stop or Bust).
    pub turns: u32,
    pub winner: Option<u8>,
}

/// The runner of column `idx`, if one is placed: its position.
pub open spec fn runner_at(rs: Seq<(usize, u8)>, idx: int) -> Option<u8> {
    if exists|j: int| 0 <= j < rs.len() && rs[j].0 == idx {
        Some(rs[choose|j: int| 0 <= j < rs.len() && rs[j].0 == idx].1)
    } else {
        None
    }
}

/// No two runners share a column.
pub open spec fn runner_cols_distinct(rs: Seq<(usize, u8)>) -> bool {
    forall|a: int, b: int| 0 <= a < b < rs.len() ==> #[trigger] rs[a].0 != #[trigger] rs[b].0
}

/// Four dice faces, sorted ascending.
pub open spec fn dice_ok(d: [u8; 4]) -> bool {
    1 <= d[0] <= d[1] <= d[2] <= d[3] <= 6
}

/// `s` with later repeats removed: each value kept at its first occurrence.
pub open spec fn dedup(s: Seq<ClimbMove>) -> Seq<ClimbMove>
    decreases s.len(),
{
    if s.len() == 0 {
        s
    } else {
        let d = dedup(s.drop_last());
        if d.contains(s.last()) {
            d
        } else {
            d.push(s.last())
        }
    }
}

/// Number of columns claimed by `p` among the first `k`.
pub open spec fn claimed_upto(claimed: Seq<i8>, p: int, k: int) -> int
    decreases k,
{
    if k <= 0 {
        0
    } else {
        claimed_upto(claimed, p, k - 1) + if claimed[k - 1] == p { 1int } else { 0int }
    }
}

impl Climb {
    pub open spec fn claimed_count_spec(&self, p: int) -> int {
        claimed_upto(self.claimed@, p, NUM_COLS as int)
    }

    pub open spec fn terminal_spec(&self) -> bool {
        self.winner is Some || self.turns >= TURN_CAP
    }

    /// The state is well formed.
    pub open spec fn wf(&self) -> bool {
        &&& 1 <= self.num_players <= 4
        &&& self.current < self.num_players
        &&& self.banked@.len() == self.num_players
        &&& forall|p: int, i: int| 0 <= p < self.num_players && 0 <= i < NUM_COLS ==> #[trigger] self.banked@[p][i] <= height(i)
        &&& forall|i: int| 0 <= i < NUM_COLS ==> -1 <= #[trigger] self.claimed[i] < self.num_players
        &&& self.runners@.len() <= MAX_RUNNERS
        &&& runner_cols_distinct(self.runners@)
        &&& forall|j: int| 0 <= j < self.runners@.len() ==> (#[trigger] self.runners@[j]).0 < NUM_COLS && self.runners@[j].1 <= height(self.runners@[j].0 as int)
        &&& self.dice matches Some(d) ==> dice_ok(d)
        &&& self.winner matches Some(w) ==> w < self.num_players
    }

    /// The current player's position in column `idx`: the runner if placed, else the
    /// banked marker.
    pub open spec fn cur_pos_spec(&self, idx: int) -> int {
        match runner_at(self.runners@, idx) {
            Some(p) => p as int,
            None => self.banked@[self.current as int][idx] as int,
        }
    }

    pub open spec fn slot_ok(&self, idx: int) -> bool {
        runner_at(self.runners@, idx) is Some || self.runners@.len() < MAX_RUNNERS
    }

    /// The current player can advance column `idx` one step now.
    pub open spec fn can_advance_spec(&self, idx: int) -> bool {
        &&& self.claimed[idx] < 0
        &&& self.cur_pos_spec(idx) < height(idx)
        &&& self.slot_ok(idx)
    }

    /// The pairing options offered by one split of the dice into sums `x` and `y`.
    pub open spec fn split_options(&self, x: int, y: int) -> Seq<ClimbMove> {
        if x == y {
            let idx = x - 2;
            if self.claimed[idx] < 0 && self.slot_ok(idx) && self.cur_pos_spec(idx) + 2 <= height(idx) {
                seq![ClimbMove::Pair(x as u8, Some(x as u8))]
            } else if self.claimed[idx] < 0 && self.slot_ok(idx) && self.cur_pos_spec(idx) < height(idx) {
                seq![ClimbMove::Pair(x as u8, None)]
            } else {
                seq![]
            }
        } else {
            let (ix, iy) = (x - 2, y - 2);
            let new_needed = (if runner_at(self.runners@, ix) is None { 1int } else { 0int }) + (if runner_at(
                self.runners@,
                iy,
            ) is None {
                1int
            } else {
                0int
            });
            let both = self.claimed[ix] < 0 && self.claimed[iy] < 0 && self.cur_pos_spec(ix) < height(ix) && self.cur_pos_spec(iy)
                < height(iy) && self.runners@.len() + new_needed <= MAX_RUNNERS;
            if both {
                seq![ClimbMove::Pair(x as u8, Some(y as u8))]
            } else {
                (if self.can_advance_spec(ix) {
                    seq![ClimbMove::Pair(x as u8, None)]
                } else {
                    seq![]
                }) + (if self.can_advance_spec(iy) {
                    seq![ClimbMove::Pair(y as u8, None)]
                } else {
                    seq![]
                })
            }
        }
    }

    /// The legal pairings for dice `d`, each once, in order of the three splits
    /// `(a+b, c+d)`, `(a+c, b+d)`, `(a+d, b+c)`. Empty means a bust.
    pub open spec fn pairings_for(&self, d: [u8; 4]) -> Seq<ClimbMove> {
        let (a, b, c, e) = (d[0] as int, d[1] as int, d[2] as int, d[3] as int);
        dedup(self.split_options(a + b, c + e) + self.split_options(a + c, b + e) + self.split_options(a + e, b + c))
    }

    /// The legal pairings for the dice on the table (none without dice).
    pub open spec fn pairings_spec(&self) -> Seq<ClimbMove> {
        match self.dice {
            None => seq![],
            Some(d) => self.pairings_for(d),
        }
    }

    /// `m` is a pairing the current player can make: every column it advances is open,
    /// stays within its height, and fits the runner limit.
    pub open spec fn pair_ok(&self, m: ClimbMove) -> bool {
        match m {
            ClimbMove::Pair(f, None) => 2 <= f <= 12 && self.can_advance_spec(f - 2),
            ClimbMove::Pair(f, Some(t)) => {
                &&& 2 <= f <= 12
                &&& 2 <= t <= 12
                &&& if f == t {
                    self.claimed[f - 2] < 0 && self.slot_ok(f - 2) && self.cur_pos_spec(f - 2) + 2 <= height(f - 2)
                } else {
                    &&& self.claimed[f - 2] < 0
                    &&& self.claimed[t - 2] < 0
                    &&& self.cur_pos_spec(f - 2) < height(f - 2)
                    &&& self.cur_pos_spec(t - 2) < height(t - 2)
                    &&& self.runners@.len() + (if runner_at(self.runners@, f - 2) is None { 1int } else { 0int }) + (if runner_at(
                        self.runners@,
                        t - 2,
                    ) is None {
                        1int
                    } else {
                        0int
                    }) <= MAX_RUNNERS
                }
            },
            _ => false,
        }
    }

    /// The moves of the current decision: Roll (and Stop with progress) to act, the
    /// pairings to pair, none during a roll or once the game is over.
    pub open spec fn moves_spec(&self) -> Seq<ClimbMove> {
        if self.terminal_spec() {
            seq![]
        } else {
            match self.phase {
                Phase::Act => if self.runners@.len() > 0 {
                    seq![ClimbMove::Roll, ClimbMove::Stop]
                } else {
                    seq![ClimbMove::Roll]
                },
                Phase::Roll => seq![],
                Phase::Pair => self.pairings_spec(),
            }
        }
    }

    /// `m` can be played now: a move of the current decision, or a dice outcome while
    /// a roll is in flight.
    pub open spec fn legal(&self, m: ClimbMove) -> bool {
        ||| self.moves_spec().contains(m)
        ||| (!self.terminal_spec() && self.phase == Phase::Roll && (m matches ClimbMove::Dice(a, b, c, d) && dice_ok([a, b, c, d])))
    }
}

/// Every value of `dedup(s)` occurs in `s`.
proof fn lemma_dedup_sub(s: Seq<ClimbMove>, m: ClimbMove)
    requires
        dedup(s).contains(m),
    ensures
        s.contains(m),
    decreases s.len(),
{
    if s.len() > 0 {
        let d = dedup(s.drop_last());
        if d.contains(m) {
            lemma_dedup_sub(s.drop_last(), m);
            let k = choose|k: int| 0 <= k < s.drop_last().len() && s.drop_last()[k] == m;
            assert(s[k] == m);
        } else {
            assert(m == s.last());
            assert(s[s.len() - 1] == m);
        }
    }
}

impl Climb {
    /// Every option of a split is a pairing the player can make.
    proof fn lemma_split_ok(&self, x: int, y: int, m: ClimbMove)
        requires
            2 <= x <= 12,
            2 <= y <= 12,
            self.split_options(x, y).contains(m),
        ensures
            self.pair_ok(m),
    {
        let v = self.split_options(x, y);
        let k = choose|k: int| 0 <= k < v.len() && v[k] == m;
    }

    /// Every legal pairing is a pairing the player can make.
    pub proof fn lemma_pairing_ok(&self, d: [u8; 4], m: ClimbMove)
        requires
            dice_ok(d),
            self.pairings_for(d).contains(m),
        ensures
            self.pair_ok(m),
    {
        let (a, b, c, e) = (d[0] as int, d[1] as int, d[2] as int, d[3] as int);
        let s1 = self.split_options(a + b, c + e);
        let s2 = self.split_options(a + c, b + e);
        let s3 = self.split_options(a + e, b + c);
        let all = s1 + s2 + s3;
        lemma_dedup_sub(all, m);
        let k = choose|k: int| 0 <= k < all.len() && all[k] == m;
        if k < s1.len() {
            assert(s1[k] == m);
            self.lemma_split_ok(a + b, c + e, m);
        } else if k < s1.len() + s2.len() {
            assert(s2[k - s1.len()] == m);
            self.lemma_split_ok(a + c, b + e, m);
        } else {
            assert(s3[k - s1.len() - s2.len()] == m);
            self.lemma_split_ok(a + e, b + c, m);
        }
    }
}

impl Climb {
    pub fn new(num_players: u8, to_win: u8) -> (g: Self)
        requires
            1 <= num_players <= 4,
        ensures
            g.wf(),
            g.num_players == num_players,
            g.to_win == to_win,
            g.current == 0,
            forall|p: int, i: int| 0 <= p < num_players && 0 <= i < NUM_COLS ==> #[trigger] g.banked@[p][i] == 0,
            forall|i: int| 0 <= i < NUM_COLS ==> #[trigger] g.claimed[i] == -1,
            g.runners@.len() == 0,
            g.phase == Phase::Act,
            g.dice is None,
            !g.busted,
            g.turns == 0,
            g.winner is None,
    {
        let mut banked: Vec<[u8; 11]> = Vec::new();
        let mut p: u8 = 0;
        while p < num_players
            invariant
                p <= num_players,
                banked@.len() == p,
                forall|q: int, i: int| 0 <= q < p && 0 <= i < NUM_COLS ==> #[trigger] banked@[q][i] == 0,
            decreases num_players - p,
        {
            banked.push([0u8; 11]);
            p += 1;
        }
        Climb {
            num_players,
            current: 0,
            to_win,
            banked,
            claimed: [-1i8; 11],
            runners: Vec::new(),
            phase: Phase::Act,
            dice: None,
            busted: false,
            turns: 0,
            winner: None,
        }
    }

    /// Columns claimed by `p`.
    pub fn claimed_count(&self, p: u8) -> (n: usize)
        requires
            p <= 127,
        ensures
            n == self.claimed_count_spec(p as int),
            n <= NUM_COLS,
    {
        let mut n: usize = 0;
        let mut i: usize = 0;
        while i < NUM_COLS
            invariant
                p <= 127,
                i <= NUM_COLS,
                n == claimed_upto(self.claimed@, p as int, i as int),
                n <= i,
            decreases NUM_COLS - i,
        {
            if self.claimed[i] == p as i8 {
                n += 1;
            }
            i += 1;
        }
        n
    }

    pub fn is_terminal(&self) -> (b: bool)
        ensures
            b == self.terminal_spec(),
    {
        self.winner.is_some() || self.turns >= TURN_CAP
    }

    /// The runner of column `idx`, if placed this turn: its position.
    pub fn has_runner(&self, idx: usize) -> (r: Option<u8>)
        requires
            runner_cols_distinct(self.runners@),
        ensures
            r == runner_at(self.runners@, idx as int),
    {
        let mut j: usize = 0;
        while j < self.runners.len()
            invariant
                runner_cols_distinct(self.runners@),
                j <= self.runners@.len(),
                forall|k: int| 0 <= k < j ==> (#[trigger] self.runners@[k]).0 != idx,
            decreases self.runners@.len() - j,
        {
            if self.runners[j].0 == idx {
                proof {
                    assert(0 <= j < self.runners@.len() && self.runners@[j as int].0 == idx as int);
                    let c = choose|k: int| 0 <= k < self.runners@.len() && self.runners@[k].0 == idx as int;
                    if c != j as int {
                        assert(self.runners@[c].0 == self.runners@[j as int].0);
                    }
                    assert(c == j);
                    assert(runner_at(self.runners@, idx as int) == Some(self.runners@[j as int].1));
                }
                return Some(self.runners[j].1);
            }
            j += 1;
        }
        None
    }

    /// The current player's position in column `idx`.
    pub fn cur_pos(&self, idx: usize) -> (p: u8)
        requires
            self.wf(),
            idx < NUM_COLS,
        ensures
            p == self.cur_pos_spec(idx as int),
    {
        match self.has_runner(idx) {
            Some(p) => p,
            None => self.banked[self.current as usize][idx],
        }
    }

    /// Can the current player advance column `idx` by one step now?
    pub fn can_advance(&self, idx: usize) -> (b: bool)
        requires
            self.wf(),
            idx < NUM_COLS,
        ensures
            b == self.can_advance_spec(idx as int),
    {
        self.claimed[idx] < 0 && self.cur_pos(idx) < height_of(idx) && (self.has_runner(idx).is_some() || self.runners.len()
            < MAX_RUNNERS)
    }
}

impl Climb {
    /// The options of one split of the dice into sums `x` and `y`.
    fn split_options_exec(&self, x: u8, y: u8) -> (v: Vec<ClimbMove>)
        requires
            self.wf(),
            2 <= x <= 12,
            2 <= y <= 12,
        ensures
            v@ == self.split_options(x as int, y as int),
    {
        let mut v: Vec<ClimbMove> = Vec::new();
        if x == y {
            // Doubles: advance the one column twice if possible, else once.
            let idx = col_index(x);
            if self.claimed[idx] < 0 {
                let start = self.cur_pos(idx);
                let h = height_of(idx);
                let slot_ok = self.has_runner(idx).is_some() || self.runners.len() < MAX_RUNNERS;
                if slot_ok && start + 2 <= h {
                    v.push(ClimbMove::Pair(x, Some(x)));
                } else if slot_ok && start < h {
                    v.push(ClimbMove::Pair(x, None));
                }
            }
            assert(v@ =~= self.split_options(x as int, y as int));
            return v;
        }
        let ix = col_index(x);
        let iy = col_index(y);
        let mut new_needed: usize = 0;
        if self.has_runner(ix).is_none() {
            new_needed += 1;
        }
        if self.has_runner(iy).is_none() {
            new_needed += 1;
        }
        let both = self.claimed[ix] < 0 && self.claimed[iy] < 0 && self.cur_pos(ix) < height_of(ix) && self.cur_pos(iy) < height_of(
            iy,
        ) && self.runners.len() + new_needed <= MAX_RUNNERS;
        if both {
            // Both sums must be taken when able.
            v.push(ClimbMove::Pair(x, Some(y)));
        } else {
            if self.can_advance(ix) {
                v.push(ClimbMove::Pair(x, None));
            }
            if self.can_advance(iy) {
                v.push(ClimbMove::Pair(y, None));
            }
        }
        assert(v@ =~= self.split_options(x as int, y as int));
        v
    }

    /// Legal pairing moves for the dice on the table. Empty means the roll is a bust.
    pub fn legal_pairings(&self) -> (out: Vec<ClimbMove>)
        requires
            self.wf(),
        ensures
            out@ == self.pairings_spec(),
    {
        match self.dice {
            None => Vec::new(),
            Some(d) => self.pairings_of(d),
        }
    }

    /// Legal pairing moves for dice `d`.
    fn pairings_of(&self, d: [u8; 4]) -> (out: Vec<ClimbMove>)
        requires
            self.wf(),
            dice_ok(d),
        ensures
            out@ == self.pairings_for(d),
    {
        let (a, b, c, e) = (d[0], d[1], d[2], d[3]);
        let mut cands = self.split_options_exec(a + b, c + e);
        let mut s2 = self.split_options_exec(a + c, b + e);
        let mut s3 = self.split_options_exec(a + e, b + c);
        cands.append(&mut s2);
        cands.append(&mut s3);
        let mut out: Vec<ClimbMove> = Vec::new();
        let mut i: usize = 0;
        while i < cands.len()
            invariant
                i <= cands@.len(),
                out@ == dedup(cands@.take(i as int)),
            decreases cands@.len() - i,
        {
            let m = cands[i];
            let mut seen = false;
            let mut j: usize = 0;
            while j < out.len()
                invariant
                    j <= out@.len(),
                    seen == exists|k: int| 0 <= k < j && out@[k] == m,
                decreases out@.len() - j,
            {
                if out[j] == m {
                    seen = true;
                }
                j += 1;
            }
            proof {
                assert(cands@.take(i + 1).drop_last() =~= cands@.take(i as int));
                assert(cands@.take(i + 1).last() == m);
                if out@.contains(m) {
                    let k = choose|k: int| 0 <= k < out@.len() && out@[k] == m;
                    assert(seen);
                }
            }
            if !seen {
                out.push(m);
            }
            i += 1;
        }
        assert(cands@.take(cands@.len() as int) =~= cands@);
        out
    }
}

/// The runners after one step in column `idx`: its runner moves up one, or a new
/// runner is placed one above the banked marker `start`.
pub open spec fn stepped(rs: Seq<(usize, u8)>, idx: int, start: int) -> Seq<(usize, u8)> {
    if exists|j: int| 0 <= j < rs.len() && rs[j].0 == idx {
        let j = choose|j: int| 0 <= j < rs.len() && rs[j].0 == idx;
        rs.update(j, (idx as usize, (rs[j].1 + 1) as u8))
    } else {
        rs.push((idx as usize, (start + 1) as u8))
    }
}

impl Climb {
    /// The current player's banked marker in column `idx`.
    pub open spec fn banked_at(&self, idx: int) -> int {
        self.banked@[self.current as int][idx] as int
    }

    /// Advance the current player's runner in column `idx` by one step, placing it at
    /// banked + 1 if this is its first advance this turn.
    pub fn step(&mut self, idx: usize)
        requires
            old(self).wf(),
            idx < NUM_COLS,
            old(self).cur_pos_spec(idx as int) < height(idx as int),
            old(self).slot_ok(idx as int),
        ensures
            final(self).wf(),
            final(self).runners@ == stepped(old(self).runners@, idx as int, old(self).banked_at(idx as int)),
            final(self).cur_pos_spec(idx as int) == old(self).cur_pos_spec(idx as int) + 1,
            forall|i: int| 0 <= i < NUM_COLS && i != idx ==> #[trigger] final(self).cur_pos_spec(i) == old(self).cur_pos_spec(i),
            forall|i: int| 0 <= i < NUM_COLS && i != idx ==> (runner_at(final(self).runners@, i) is Some <==> runner_at(old(self).runners@, i) is Some),
            runner_at(final(self).runners@, idx as int) is Some,
            final(self).runners@.len() == old(self).runners@.len() + if runner_at(old(self).runners@, idx as int) is Some { 0int } else { 1int },
            final(self).num_players == old(self).num_players,
            final(self).current == old(self).current,
            final(self).to_win == old(self).to_win,
            final(self).banked == old(self).banked,
            final(self).claimed == old(self).claimed,
            final(self).phase == old(self).phase,
            final(self).dice == old(self).dice,
            final(self).busted == old(self).busted,
            final(self).turns == old(self).turns,
            final(self).winner == old(self).winner,
    {
        let ghost rs = self.runners@;
        let mut j: usize = 0;
        while j < self.runners.len()
            invariant
                *self == *old(self),
                old(self).wf(),
                idx < NUM_COLS,
                old(self).cur_pos_spec(idx as int) < height(idx as int),
                old(self).slot_ok(idx as int),
                rs == self.runners@,
                runner_cols_distinct(rs),
                j <= rs.len(),
                forall|k: int| 0 <= k < j ==> (#[trigger] rs[k]).0 != idx,
            decreases rs.len() - j,
        {
            if self.runners[j].0 == idx {
                let r = self.runners[j];
                proof {
                    assert(0 <= j < rs.len() && rs[j as int].0 == idx as int);
                    let c = choose|k: int| 0 <= k < rs.len() && rs[k].0 == idx as int;
                    if c != j as int {
                        assert(rs[c].0 == rs[j as int].0);
                    }
                    assert(c == j);
                    assert(runner_at(rs, idx as int) == Some(r.1));
                }
                self.runners.set(j, (idx, r.1 + 1));
                proof {
                    let nr = self.runners@;
                    assert(nr == stepped(rs, idx as int, self.banked_at(idx as int)));
                    assert forall|a: int, b: int| 0 <= a < b < nr.len() implies #[trigger] nr[a].0 != #[trigger] nr[b].0 by {
                        assert(rs[a].0 != rs[b].0);
                    }
                    assert(0 <= j < nr.len() && nr[j as int].0 == idx as int);
                    let c2 = choose|k: int| 0 <= k < nr.len() && nr[k].0 == idx as int;
                    if c2 != j as int {
                        assert(nr[c2].0 == nr[j as int].0);
                    }
                    assert forall|i: int| 0 <= i < NUM_COLS && i != idx implies runner_at(nr, i) == runner_at(rs, i) by {
                        if exists|k: int| 0 <= k < rs.len() && rs[k].0 == i {
                            let k = choose|k: int| 0 <= k < rs.len() && rs[k].0 == i;
                            assert(nr[k].0 == i);
                            let k2 = choose|k: int| 0 <= k < nr.len() && nr[k].0 == i;
                            if k2 != k {
                                assert(nr[k2].0 == nr[k].0);
                            }
                        }
                        if exists|k: int| 0 <= k < nr.len() && nr[k].0 == i {
                            let k = choose|k: int| 0 <= k < nr.len() && nr[k].0 == i;
                            assert(rs[k].0 == i);
                        }
                    }
                    assert forall|i: int| 0 <= i < NUM_COLS && i != idx implies #[trigger] self.cur_pos_spec(i) == old(self).cur_pos_spec(i) by {
                        assert(runner_at(nr, i) == runner_at(rs, i));
                    }
                }
                return;
            }
            j += 1;
        }
        let start = self.banked[self.current as usize][idx];
        self.runners.push((idx, start + 1));
        proof {
            let nr = self.runners@;
            assert(!exists|k: int| 0 <= k < rs.len() && rs[k].0 == idx as int);
            assert(nr == stepped(rs, idx as int, self.banked_at(idx as int)));
            assert forall|a: int, b: int| 0 <= a < b < nr.len() implies #[trigger] nr[a].0 != #[trigger] nr[b].0 by {
                if b < rs.len() {
                    assert(rs[a].0 != rs[b].0);
                }
            }
            let last = rs.len() as int;
            assert(nr[last].0 == idx as int);
            let c2 = choose|k: int| 0 <= k < nr.len() && nr[k].0 == idx as int;
            if c2 != last {
                assert(nr[c2].0 == nr[last].0);
            }
            assert forall|i: int| 0 <= i < NUM_COLS && i != idx implies runner_at(nr, i) == runner_at(rs, i) by {
                if exists|k: int| 0 <= k < rs.len() && rs[k].0 == i {
                    let k = choose|k: int| 0 <= k < rs.len() && rs[k].0 == i;
                    assert(nr[k].0 == i);
                    let k2 = choose|k: int| 0 <= k < nr.len() && nr[k].0 == i;
                    if k2 != k {
                        assert(nr[k2].0 == nr[k].0);
                    }
                }
                if exists|k: int| 0 <= k < nr.len() && nr[k].0 == i {
                    let k = choose|k: int| 0 <= k < nr.len() && nr[k].0 == i;
                    assert(k != last);
                    assert(rs[k].0 == i);
                }
            }
            assert forall|i: int| 0 <= i < NUM_COLS && i != idx implies #[trigger] self.cur_pos_spec(i) == old(self).cur_pos_spec(i) by {
                assert(runner_at(nr, i) == runner_at(rs, i));
            }
        }
    }
}

/// A runner found at position `k` is the runner of its column.
proof fn lemma_runner_at_found(rs: Seq<(usize, u8)>, k: int, i: int)
    requires
        runner_cols_distinct(rs),
        0 <= k < rs.len(),
        rs[k].0 == i,
    ensures
        runner_at(rs, i) == Some(rs[k].1),
{
    assert(exists|j: int| 0 <= j < rs.len() && rs[j].0 == i);
    let c = choose|j: int| 0 <= j < rs.len() && rs[j].0 == i;
    if c != k {
        if c < k {
            assert(rs[c].0 != rs[k].0);
        } else {
            assert(rs[k].0 != rs[c].0);
        }
    }
}

/// A runner list with one more runner in a fresh column finds it there and the others
/// where they were.
proof fn lemma_runner_at_push(rs: Seq<(usize, u8)>, x: (usize, u8), i: int)
    requires
        runner_cols_distinct(rs.push(x)),
    ensures
        runner_at(rs.push(x), i) == if i == x.0 { Some(x.1) } else { runner_at(rs, i) },
{
    let t = rs.push(x);
    let last = rs.len() as int;
    assert(runner_cols_distinct(rs)) by {
        assert forall|a: int, b: int| 0 <= a < b < rs.len() implies #[trigger] rs[a].0 != #[trigger] rs[b].0 by {
            assert(t[a].0 != t[b].0);
        }
    }
    if i == x.0 {
        assert(t[last].0 == i);
        lemma_runner_at_found(t, last, i);
    } else {
        if exists|k: int| 0 <= k < rs.len() && rs[k].0 == i {
            let k = choose|k: int| 0 <= k < rs.len() && rs[k].0 == i;
            assert(t[k] == rs[k]);
            lemma_runner_at_found(t, k, i);
            lemma_runner_at_found(rs, k, i);
        } else {
            if exists|k: int| 0 <= k < t.len() && t[k].0 == i {
                let k = choose|k: int| 0 <= k < t.len() && t[k].0 == i;
                assert(k != last);
                assert(rs[k].0 == i);
            }
            assert(runner_at(t, i) is None);
        }
    }
}

impl Climb {
    /// Who holds column `i` after the current player stops: they claim it when their
    /// runner there reached the top of an unclaimed column.
    pub open spec fn claim_after_stop(&self, i: int) -> i8 {
        if self.claimed[i] < 0 && runner_at(self.runners@, i) == Some(height(i) as u8) {
            self.current as i8
        } else {
            self.claimed[i]
        }
    }

    /// `next` is this state after the move `m`.
    pub open spec fn moved(&self, next: Climb, m: ClimbMove) -> bool {
        &&& next.num_players == self.num_players
        &&& next.to_win == self.to_win
        &&& match m {
            ClimbMove::Roll => {
                &&& !next.busted
                &&& next.phase == Phase::Roll
                &&& next.current == self.current
                &&& next.banked == self.banked
                &&& next.claimed == self.claimed
                &&& next.runners == self.runners
                &&& next.dice == self.dice
                &&& next.turns == self.turns
                &&& next.winner == self.winner
            },
            ClimbMove::Dice(a, b, c, d) => {
                &&& next.dice == Some([a, b, c, d])
                &&& next.banked == self.banked
                &&& next.claimed == self.claimed
                &&& next.winner == self.winner
                &&& if self.pairings_for([a, b, c, d]).len() == 0 {
                    &&& next.busted
                    &&& next.runners@.len() == 0
                    &&& next.turns == self.turns + 1
                    &&& next.current == (self.current + 1) % (self.num_players as int)
                    &&& next.phase == Phase::Act
                } else {
                    &&& next.busted == self.busted
                    &&& next.runners == self.runners
                    &&& next.turns == self.turns
                    &&& next.current == self.current
                    &&& next.phase == Phase::Pair
                }
            },
            ClimbMove::Pair(f, second) => {
                &&& !next.busted
                &&& next.phase == Phase::Act
                &&& next.runners@ == match second {
                    None => stepped(self.runners@, f - 2, self.banked_at(f - 2)),
                    Some(t) => stepped(
                        stepped(self.runners@, f - 2, self.banked_at(f - 2)),
                        t - 2,
                        self.banked_at(t - 2),
                    ),
                }
                &&& next.current == self.current
                &&& next.banked == self.banked
                &&& next.claimed == self.claimed
                &&& next.dice == self.dice
                &&& next.turns == self.turns
                &&& next.winner == self.winner
            },
            ClimbMove::Stop => {
                let cur = self.current as int;
                &&& next.runners@.len() == 0
                &&& next.phase == Phase::Act
                &&& forall|i: int| 0 <= i < NUM_COLS ==> #[trigger] next.banked@[cur][i] == self.cur_pos_spec(i)
                &&& forall|p: int| 0 <= p < self.num_players && p != cur ==> #[trigger] next.banked@[p] == self.banked@[p]
                &&& forall|i: int| 0 <= i < NUM_COLS ==> #[trigger] next.claimed[i] == self.claim_after_stop(i)
                &&& if next.claimed_count_spec(cur) >= self.to_win {
                    &&& next.winner == Some(self.current)
                    &&& next.current == self.current
                    &&& next.turns == self.turns
                    &&& next.dice == self.dice
                    &&& next.busted == self.busted
                } else {
                    &&& next.winner == self.winner
                    &&& next.dice is None
                    &&& !next.busted
                    &&& next.turns == self.turns + 1
                    &&& next.current == (self.current + 1) % (self.num_players as int)
                }
            },
        }
    }

    /// End the current turn without banking (a bust): clear runners, next player.
    fn advance_player(&mut self)
        requires
            old(self).wf(),
            old(self).turns < TURN_CAP,
        ensures
            final(self).wf(),
            final(self).runners@.len() == 0,
            final(self).turns == old(self).turns + 1,
            final(self).current == (old(self).current + 1) % (old(self).num_players as int),
            final(self).phase == Phase::Act,
            final(self).num_players == old(self).num_players,
            final(self).to_win == old(self).to_win,
            final(self).banked == old(self).banked,
            final(self).claimed == old(self).claimed,
            final(self).dice == old(self).dice,
            final(self).busted == old(self).busted,
            final(self).winner == old(self).winner,
    {
        self.runners = Vec::new();
        self.turns = self.turns + 1;
        self.current = (self.current + 1) % self.num_players;
        self.phase = Phase::Act;
    }

    /// Play `m`: a decision of the current player, or the dice of a roll in flight.
    pub fn make_move(&mut self, m: &ClimbMove)
        requires
            old(self).wf(),
            old(self).legal(*m),
        ensures
            final(self).wf(),
            old(self).moved(*final(self), *m),
    {
        proof {
            if old(self).phase == Phase::Pair && old(self).pairings_spec().contains(*m) {
                old(self).lemma_pairing_ok(old(self).dice->0, *m);
            }
        }
        match *m {
            ClimbMove::Roll => {
                self.busted = false;
                self.phase = Phase::Roll;
            },
            ClimbMove::Dice(a, b, c, d) => {
                self.land_dice([a, b, c, d]);
            },
            ClimbMove::Pair(first, second) => {
                self.play_pair(first, second);
            },
            ClimbMove::Stop => {
                self.bank_runners();
            },
        }
    }
}

impl Climb {
    /// Stop: bank every runner, claim each unclaimed column whose runner reached the top,
    /// then win or pass the turn.
    fn bank_runners(&mut self)
        requires
            old(self).wf(),
            old(self).turns < TURN_CAP,
        ensures
            final(self).wf(),
            final(self).num_players == old(self).num_players,
            final(self).to_win == old(self).to_win,
            ({
                let cur = old(self).current as int;
                &&& final(self).runners@.len() == 0
                &&& final(self).phase == Phase::Act
                &&& forall|i: int| 0 <= i < NUM_COLS ==> #[trigger] final(self).banked@[cur][i] == old(self).cur_pos_spec(i)
                &&& forall|p: int| 0 <= p < old(self).num_players && p != cur ==> #[trigger] final(self).banked@[p] == old(self).banked@[p]
                &&& forall|i: int| 0 <= i < NUM_COLS ==> #[trigger] final(self).claimed[i] == old(self).claim_after_stop(i)
                &&& if final(self).claimed_count_spec(cur) >= old(self).to_win {
                    &&& final(self).winner == Some(old(self).current)
                    &&& final(self).current == old(self).current
                    &&& final(self).turns == old(self).turns
                    &&& final(self).dice == old(self).dice
                    &&& final(self).busted == old(self).busted
                } else {
                    &&& final(self).winner == old(self).winner
                    &&& final(self).dice is None
                    &&& !final(self).busted
                    &&& final(self).turns == old(self).turns + 1
                    &&& final(self).current == (old(self).current + 1) % (old(self).num_players as int)
                }
            }),
    {
        // Bank every runner; claim any column filled to its top.
        let cur = self.current as usize;
        let ghost rs = self.runners@;
        let ghost row0 = self.banked@[cur as int];
        let ghost cl0 = self.claimed;
        let mut row = self.banked[cur];
        let mut j: usize = 0;
        while j < self.runners.len()
            invariant
                old(self).wf(),
                self.wf(),
                self.runners@ == rs,
                rs == old(self).runners@,
                cur == self.current,
                self.current == old(self).current,
                self.num_players == old(self).num_players,
                self.banked == old(self).banked,
                row0 == old(self).banked@[cur as int],
                cl0 == old(self).claimed,
                j <= rs.len(),
                forall|i: int| 0 <= i < NUM_COLS ==> #[trigger] row[i] as int == match runner_at(rs.take(j as int), i) {
                    Some(p) => p as int,
                    None => row0[i] as int,
                },
                forall|i: int| 0 <= i < NUM_COLS ==> #[trigger] self.claimed[i] == if cl0[i] < 0 && runner_at(rs.take(j as int), i) == Some(height(i) as u8) {
                    cur as i8
                } else {
                    cl0[i]
                },
                self.phase == old(self).phase,
                self.dice == old(self).dice,
                self.busted == old(self).busted,
                self.turns == old(self).turns,
                self.winner == old(self).winner,
                self.to_win == old(self).to_win,
            decreases rs.len() - j,
        {
            let (idx, pos) = self.runners[j];
            proof {
                assert(rs.take(j + 1) =~= rs.take(j as int).push(rs[j as int]));
                assert forall|a: int, b: int| 0 <= a < b < rs.take(j + 1).len() implies #[trigger] rs.take(j + 1)[a].0 != #[trigger] rs.take(j + 1)[b].0 by {
                    assert(rs[a].0 != rs[b].0);
                }
                assert forall|i: int| 0 <= i < NUM_COLS implies runner_at(rs.take(j + 1), i) == if i == idx { Some(pos) } else { runner_at(rs.take(j as int), i) } by {
                    lemma_runner_at_push(rs.take(j as int), rs[j as int], i);
                }
            }
            row[idx] = pos;
            if self.claimed[idx] < 0 && pos == height_of(idx) {
                self.claimed[idx] = self.current as i8;
            }
            j += 1;
        }
        proof {
            assert(rs.take(rs.len() as int) =~= rs);
        }
        self.banked.set(cur, row);
        self.runners = Vec::new();
        if self.claimed_count(self.current) >= self.to_win as usize {
            self.winner = Some(self.current);
            self.phase = Phase::Act;
        } else {
            self.dice = None;
            self.busted = false;
            self.turns = self.turns + 1;
            self.current = (self.current + 1) % self.num_players;
            self.phase = Phase::Act;
        }
    }
}

impl Climb {
    /// The dice `d` land: pair them, or bust when no pairing is legal.
    fn land_dice(&mut self, d: [u8; 4])
        requires
            old(self).wf(),
            dice_ok(d),
            old(self).turns < TURN_CAP,
        ensures
            final(self).wf(),
            final(self).num_players == old(self).num_players,
            final(self).to_win == old(self).to_win,
            final(self).dice == Some(d),
            final(self).banked == old(self).banked,
            final(self).claimed == old(self).claimed,
            final(self).winner == old(self).winner,
            if old(self).pairings_for(d).len() == 0 {
                &&& final(self).busted
                &&& final(self).runners@.len() == 0
                &&& final(self).turns == old(self).turns + 1
                &&& final(self).current == (old(self).current + 1) % (old(self).num_players as int)
                &&& final(self).phase == Phase::Act
            } else {
                &&& final(self).busted == old(self).busted
                &&& final(self).runners == old(self).runners
                &&& final(self).turns == old(self).turns
                &&& final(self).current == old(self).current
                &&& final(self).phase == Phase::Pair
            },
    {
        let bust = self.pairings_of(d).len() == 0;
        self.dice = Some(d);
        self.phase = Phase::Pair;
        if bust {
            // Bust: no legal pairing. All runner progress this turn is lost.
            self.busted = true;
            self.advance_player();
        }
    }

    /// Advance the columns of a pairing.
    fn play_pair(&mut self, first: u8, second: Option<u8>)
        requires
            old(self).wf(),
            old(self).pair_ok(ClimbMove::Pair(first, second)),
        ensures
            final(self).wf(),
            final(self).num_players == old(self).num_players,
            final(self).to_win == old(self).to_win,
            !final(self).busted,
            final(self).phase == Phase::Act,
            final(self).runners@ == match second {
                None => stepped(old(self).runners@, first - 2, old(self).banked_at(first - 2)),
                Some(t) => stepped(
                    stepped(old(self).runners@, first - 2, old(self).banked_at(first - 2)),
                    t - 2,
                    old(self).banked_at(t - 2),
                ),
            },
            final(self).current == old(self).current,
            final(self).banked == old(self).banked,
            final(self).claimed == old(self).claimed,
            final(self).dice == old(self).dice,
            final(self).turns == old(self).turns,
            final(self).winner == old(self).winner,
    {
        self.step(col_index(first));
        match second {
            Some(t) => {
                self.step(col_index(t));
            },
            None => {},
        }
        self.busted = false;
        self.phase = Phase::Act;
    }
}

impl Climb {
    /// The seat that wins: the winner, or at the turn cap the one seat with strictly
    /// more claimed columns than every other; `None` otherwise.
    pub open spec fn result_seat_spec(&self) -> Option<u8> {
        if self.winner is Some {
            self.winner
        } else if self.turns >= TURN_CAP && exists|p: int| 0 <= p < self.num_players && #[trigger] self.leads(p) {
            Some((choose|p: int| 0 <= p < self.num_players && #[trigger] self.leads(p)) as u8)
        } else {
            None
        }
    }

    /// Seat `p` has strictly more claimed columns than every other seat.
    pub open spec fn leads(&self, p: int) -> bool {
        forall|q: int| 0 <= q < self.num_players && q != p ==> #[trigger] self.claimed_count_spec(q) < self.claimed_count_spec(p)
    }

    pub fn current_player(&self) -> (p: u8)
        ensures
            p == self.current,
    {
        self.current
    }

    pub fn has_progress(&self) -> (b: bool)
        ensures
            b == (self.runners@.len() > 0),
    {
        self.runners.len() > 0
    }

    /// The winning seat, if there is one (`None` while running or on a cap draw).
    pub fn result_seat(&self) -> (r: Option<u8>)
        requires
            self.wf(),
        ensures
            r == self.result_seat_spec(),
    {
        if self.winner.is_some() {
            return self.winner;
        }
        if self.turns >= TURN_CAP {
            let mut counts: Vec<usize> = Vec::new();
            let mut p: u8 = 0;
            while p < self.num_players
                invariant
                    self.wf(),
                    p <= self.num_players,
                    counts@.len() == p,
                    forall|q: int| 0 <= q < p ==> #[trigger] counts@[q] == self.claimed_count_spec(q),
                decreases self.num_players - p,
            {
                counts.push(self.claimed_count(p));
                p += 1;
            }
            let mut mx: usize = 0;
            let mut i: usize = 0;
            while i < counts.len()
                invariant
                    i <= counts@.len(),
                    forall|q: int| 0 <= q < i ==> #[trigger] counts@[q] <= mx,
                    i > 0 ==> exists|q: int| 0 <= q < i && counts@[q] == mx,
                decreases counts@.len() - i,
            {
                if counts[i] > mx || i == 0 {
                    mx = counts[i];
                }
                i += 1;
            }
            let mut leaders: usize = 0;
            let mut leader: usize = 0;
            let mut i: usize = 0;
            while i < counts.len()
                invariant
                    i <= counts@.len(),
                    leaders <= i,
                    leaders == 0 ==> forall|q: int| 0 <= q < i ==> #[trigger] counts@[q] != mx,
                    leaders >= 1 ==> leader < i && counts@[leader as int] == mx,
                    leaders == 1 ==> forall|q: int| 0 <= q < i && q != leader ==> #[trigger] counts@[q] != mx,
                    leaders >= 2 ==> exists|q1: int, q2: int| 0 <= q1 < q2 < i && counts@[q1] == mx && counts@[q2] == mx,
                decreases counts@.len() - i,
            {
                if counts[i] == mx {
                    if leaders == 0 {
                        leader = i;
                    }
                    leaders += 1;
                }
                i += 1;
            }
            let n = counts.len();
            proof {
                let np = self.num_players as int;
                if leaders == 1 {
                    assert forall|q: int| 0 <= q < np && q != leader implies #[trigger] self.claimed_count_spec(q) < self.claimed_count_spec(leader as int) by {
                        assert(counts@[q] <= mx);
                        assert(counts@[q] != mx);
                    }
                    assert(self.leads(leader as int));
                    let c = choose|p: int| 0 <= p < np && #[trigger] self.leads(p);
                    if c != leader {
                        assert(self.claimed_count_spec(leader as int) < self.claimed_count_spec(c));
                        assert(self.claimed_count_spec(c) < self.claimed_count_spec(leader as int));
                    }
                } else {
                    assert forall|p: int| 0 <= p < np implies !#[trigger] self.leads(p) by {
                        if leaders == 0 {
                            let q = choose|q: int| 0 <= q < n && counts@[q] == mx;
                            assert(counts@[q] != mx);
                        } else {
                            let (q1, q2) = choose|q1: int, q2: int| 0 <= q1 < q2 < n && counts@[q1] == mx && counts@[q2] == mx;
                            if self.leads(p) {
                                if p != q1 {
                                    assert(self.claimed_count_spec(q1) < self.claimed_count_spec(p));
                                    assert(counts@[p] <= mx);
                                } else {
                                    assert(self.claimed_count_spec(q2) < self.claimed_count_spec(p));
                                }
                            }
                        }
                    }
                }
            }
            if leaders == 1 {
                return Some(leader as u8);
            }
        }
        None
    }

    /// The moves of the current decision (dice outcomes are never listed).
    pub fn available_moves(&self) -> (v: Vec<ClimbMove>)
        requires
            self.wf(),
        ensures
            v@ == self.moves_spec(),
    {
        if self.is_terminal() {
            return Vec::new();
        }
        match self.phase {
            Phase::Act => {
                let mut v = vec![ClimbMove::Roll];
                if self.has_progress() {
                    v.push(ClimbMove::Stop);
                }
                assert(v@ =~= self.moves_spec());
                v
            },
            Phase::Roll => Vec::new(),
            Phase::Pair => self.legal_pairings(),
        }
    }
}

impl Climb {
    /// Seat `p`'s position in column `idx` as the score sees it: the live runner for the
    /// current player, the banked marker for the others.
    pub open spec fn score_pos(&self, p: int, idx: int) -> int {
        if p == self.current {
            self.cur_pos_spec(idx)
        } else {
            self.banked@[p][idx] as int
        }
    }

    /// Progress of seat `p` over the first `k` columns: percent of each unclaimed
    /// column's height reached (rounded down).
    pub open spec fn progress_upto(&self, p: int, k: int) -> int
        decreases k,
    {
        if k <= 0 {
            0
        } else {
            self.progress_upto(p, k - 1) + if self.claimed[k - 1] >= 0 {
                0int
            } else {
                (self.score_pos(p, k - 1) * 100) / height(k - 1)
            }
        }
    }

    /// Heuristic score of seat `p`: claimed columns dominate, fractional progress breaks
    /// ties.
    pub open spec fn score_spec(&self, p: int) -> int {
        self.claimed_count_spec(p) * 10000 + self.progress_upto(p, NUM_COLS as int)
    }

    /// Per-seat heuristic scores, padded to four seats with `i64::MIN`.
    pub fn score_array(&self) -> (out: [i64; 4])
        requires
            self.wf(),
        ensures
            forall|p: int| 0 <= p < self.num_players ==> #[trigger] out[p] == self.score_spec(p),
            forall|p: int| self.num_players <= p < 4 ==> #[trigger] out[p] == i64::MIN,
    {
        let mut out = [i64::MIN; 4];
        let mut p: u8 = 0;
        while p < self.num_players
            invariant
                self.wf(),
                p <= self.num_players,
                forall|q: int| 0 <= q < p ==> #[trigger] out[q] == self.score_spec(q),
                forall|q: int| p <= q < 4 ==> #[trigger] out[q] == i64::MIN,
            decreases self.num_players - p,
        {
            let claimed = self.claimed_count(p) as i64 * 10_000;
            let mut prog: i64 = 0;
            let mut idx: usize = 0;
            while idx < NUM_COLS
                invariant
                    self.wf(),
                    p < self.num_players,
                    idx <= NUM_COLS,
                    prog == self.progress_upto(p as int, idx as int),
                    0 <= prog <= 100 * idx,
                decreases NUM_COLS - idx,
            {
                if self.claimed[idx] < 0 {
                    let pos = if p == self.current {
                        self.cur_pos(idx)
                    } else {
                        self.banked[p as usize][idx]
                    };
                    let h = height_of(idx);
                    assert(pos <= h) by {
                        if p != self.current {
                            assert(self.banked@[p as int][idx as int] <= height(idx as int));
                        } else if runner_at(self.runners@, idx as int) is Some {
                            let j = choose|j: int| 0 <= j < self.runners@.len() && self.runners@[j].0 == idx as int;
                            assert(self.runners@[j].1 <= height(self.runners@[j].0 as int));
                        } else {
                            assert(self.banked@[self.current as int][idx as int] <= height(idx as int));
                        }
                    }
                    assert((pos as int * 100) / (h as int) <= 100) by (nonlinear_arith)
                        requires
                            pos <= h,
                            h >= 3,
                    ;
                    prog = prog + (pos as i64 * 100) / h as i64;
                }
                idx += 1;
            }
            out[p as usize] = claimed + prog;
            p += 1;
        }
        out
    }
}

/// Factorial of `n`.
pub open spec fn fact(n: nat) -> nat
    decreases n,
{
    if n == 0 {
        1
    } else {
        n * fact((n - 1) as nat)
    }
}

/// How many of the four dice show `v`.
pub open spec fn face_count(d: [u8; 4], v: int) -> nat {
    ((if d[0] == v { 1nat } else { 0nat }) + (if d[1] == v { 1nat } else { 0nat }) + (if d[2] == v { 1nat } else { 0nat })
        + (if d[3] == v { 1nat } else { 0nat })) as nat
}

/// Number of orderings of the four dice: `4! / prod(count!)` over the six faces.
pub open spec fn multiplicity_spec(d: [u8; 4]) -> int {
    24int / (fact(face_count(d, 1)) * fact(face_count(d, 2)) * fact(face_count(d, 3)) * fact(face_count(d, 4)) * fact(
        face_count(d, 5),
    ) * fact(face_count(d, 6))) as int
}

/// Factorial of a count of at most four.
fn small_fact(n: u32) -> (r: u32)
    requires
        n <= 4,
    ensures
        r == fact(n as nat),
        1 <= r <= 24,
{
    proof {
        assert(fact(0) == 1);
        assert(fact(1) == 1 * fact(0));
        assert(fact(2) == 2 * fact(1));
        assert(fact(3) == 3 * fact(2));
        assert(fact(4) == 4 * fact(3));
    }
    match n {
        0 => 1,
        1 => 1,
        2 => 2,
        3 => 6,
        _ => 24,
    }
}

/// Number of ordered rolls that sort to the dice `[a, b, c, d]`.
pub fn multiplicity(a: u8, b: u8, c: u8, d: u8) -> (m: u32)
    requires
        1 <= a <= 6,
        1 <= b <= 6,
        1 <= c <= 6,
        1 <= d <= 6,
    ensures
        m == multiplicity_spec([a, b, c, d]),
{
    let vals = [a, b, c, d];
    let mut counts = [0u32; 7];
    let mut i: usize = 0;
    while i < 4
        invariant
            i <= 4,
            vals == [a, b, c, d],
            1 <= a <= 6 && 1 <= b <= 6 && 1 <= c <= 6 && 1 <= d <= 6,
            forall|v: int| 0 <= v < 7 ==> #[trigger] counts[v] == (if i > 0 && vals[0] == v { 1int } else { 0int }) + (if i > 1 && vals[1] == v { 1int } else { 0int }) + (if i > 2 && vals[2] == v { 1int } else { 0int }) + (if i > 3 && vals[3] == v { 1int } else { 0int }),
        decreases 4 - i,
    {
        let v = vals[i] as usize;
        counts[v] = counts[v] + 1;
        i += 1;
    }
    let mut prod: u32 = 1;
    let mut f: usize = 1;
    while f <= 6
        invariant
            1 <= f <= 7,
            vals == [a, b, c, d],
            1 <= a <= 6 && 1 <= b <= 6 && 1 <= c <= 6 && 1 <= d <= 6,
            forall|v: int| 0 <= v < 7 ==> #[trigger] counts[v] == face_count([a, b, c, d], v),
            prod as int == prod_upto([a, b, c, d], f as int - 1),
            1 <= prod <= 24,
        decreases 7 - f,
    {
        let ff = small_fact(counts[f]);
        proof {
            lemma_prod_step([a, b, c, d], f as int);
        }
        prod = prod * ff;
        f += 1;
    }
    proof {
        let dd = [a, b, c, d];
        let f1 = fact(face_count(dd, 1)) as int;
        let f2 = fact(face_count(dd, 2)) as int;
        let f3 = fact(face_count(dd, 3)) as int;
        let f4 = fact(face_count(dd, 4)) as int;
        let f5 = fact(face_count(dd, 5)) as int;
        let f6 = fact(face_count(dd, 6)) as int;
        assert(prod_upto(dd, 0) == 1);
        assert(prod_upto(dd, 1) == prod_upto(dd, 0) * f1);
        assert(prod_upto(dd, 2) == prod_upto(dd, 1) * f2);
        assert(prod_upto(dd, 3) == prod_upto(dd, 2) * f3);
        assert(prod_upto(dd, 4) == prod_upto(dd, 3) * f4);
        assert(prod_upto(dd, 5) == prod_upto(dd, 4) * f5);
        assert(prod_upto(dd, 6) == prod_upto(dd, 5) * f6);
        assert(prod_upto(dd, 6) == f1 * f2 * f3 * f4 * f5 * f6) by (nonlinear_arith)
            requires
                prod_upto(dd, 1) == 1 * f1,
                prod_upto(dd, 2) == prod_upto(dd, 1) * f2,
                prod_upto(dd, 3) == prod_upto(dd, 2) * f3,
                prod_upto(dd, 4) == prod_upto(dd, 3) * f4,
                prod_upto(dd, 5) == prod_upto(dd, 4) * f5,
                prod_upto(dd, 6) == prod_upto(dd, 5) * f6,
        ;
    }
    24 / prod
}

/// Product of `count!` over the faces `1..=k`.
pub open spec fn prod_upto(d: [u8; 4], k: int) -> int
    decreases k,
{
    if k <= 0 {
        1
    } else {
        prod_upto(d, k - 1) * fact(face_count(d, k)) as int
    }
}

/// Dice counted over the faces `1..=k`.
pub open spec fn count_upto(d: [u8; 4], k: int) -> nat
    decreases k,
{
    if k <= 0 {
        0
    } else {
        count_upto(d, k - 1) + face_count(d, k)
    }
}

proof fn lemma_fact_pos(n: nat)
    ensures
        fact(n) >= 1,
    decreases n,
{
    if n > 0 {
        lemma_fact_pos((n - 1) as nat);
        assert(n * fact((n - 1) as nat) >= 1) by (nonlinear_arith)
            requires
                n >= 1,
                fact((n - 1) as nat) >= 1,
        ;
    }
}

proof fn lemma_fact_mul(a: nat, b: nat)
    ensures
        fact(a) * fact(b) <= fact(a + b),
    decreases b,
{
    if b > 0 {
        lemma_fact_mul(a, (b - 1) as nat);
        lemma_fact_pos(a);
        lemma_fact_pos((b - 1) as nat);
        assert(fact(b) == b * fact((b - 1) as nat));
        assert(fact(a + b) == (a + b) * fact((a + b - 1) as nat));
        assert(fact(a) * fact(b) <= fact(a + b)) by (nonlinear_arith)
            requires
                fact(a) * fact((b - 1) as nat) <= fact((a + b - 1) as nat),
                fact(b) == b * fact((b - 1) as nat),
                fact(a + b) == (a + b) * fact((a + b - 1) as nat),
                fact(a) >= 1,
                fact((b - 1) as nat) >= 1,
                b >= 1,
        ;
    } else {
        assert(fact(b) == 1);
        assert(a + b == a);
        assert(fact(a) * fact(b) == fact(a));
    }
}

proof fn lemma_fact_mono(a: nat, b: nat)
    requires
        a <= b,
    ensures
        fact(a) <= fact(b),
    decreases b,
{
    if a < b {
        lemma_fact_mono(a, (b - 1) as nat);
        lemma_fact_pos((b - 1) as nat);
        assert(b * fact((b - 1) as nat) >= fact((b - 1) as nat)) by (nonlinear_arith)
            requires
                b >= 1,
                fact((b - 1) as nat) >= 1,
        ;
    }
}

/// The partial product of count factorials is at most the factorial of the dice
/// counted so far.
proof fn lemma_prod_le(d: [u8; 4], k: int)
    requires
        k >= 0,
    ensures
        1 <= prod_upto(d, k) <= fact(count_upto(d, k)),
    decreases k,
{
    if k > 0 {
        lemma_prod_le(d, k - 1);
        lemma_fact_mul(count_upto(d, k - 1), face_count(d, k));
        lemma_fact_pos(face_count(d, k));
        let p = prod_upto(d, k - 1);
        let f = fact(face_count(d, k)) as int;
        let g = fact(count_upto(d, k - 1)) as int;
        assert(p * f <= g * f) by (nonlinear_arith)
            requires
                p <= g,
                f >= 1,
        ;
        assert(p * f >= 1) by (nonlinear_arith)
            requires
                p >= 1,
                f >= 1,
        ;
    }
}

proof fn lemma_prod_step(d: [u8; 4], f: int)
    requires
        1 <= f <= 6,
        1 <= d[0] <= 6 && 1 <= d[1] <= 6 && 1 <= d[2] <= 6 && 1 <= d[3] <= 6,
    ensures
        1 <= prod_upto(d, f) <= 24,
        prod_upto(d, f) == prod_upto(d, f - 1) * fact(face_count(d, f)) as int,
{
    lemma_prod_le(d, f);
    lemma_count_upto(d, 6);
    lemma_count_mono(d, f, 6);
    lemma_fact_mono(count_upto(d, f), 4);
    assert(fact(0) == 1);
    assert(fact(1) == 1 * fact(0));
    assert(fact(2) == 2 * fact(1));
    assert(fact(3) == 3 * fact(2));
    assert(fact(4) == 4 * fact(3));
}

/// Dice counted over the faces `1..=k` are the dice showing at most `k`.
proof fn lemma_count_upto(d: [u8; 4], k: int)
    requires
        0 <= k,
        1 <= d[0] && 1 <= d[1] && 1 <= d[2] && 1 <= d[3],
    ensures
        count_upto(d, k) == (if d[0] <= k { 1int } else { 0int }) + (if d[1] <= k { 1int } else { 0int }) + (if d[2] <= k {
            1int
        } else {
            0int
        }) + (if d[3] <= k { 1int } else { 0int }),
    decreases k,
{
    if k > 0 {
        lemma_count_upto(d, k - 1);
    }
}

proof fn lemma_count_mono(d: [u8; 4], a: int, b: int)
    requires
        0 <= a <= b,
    ensures
        count_upto(d, a) <= count_upto(d, b),
    decreases b,
{
    if a < b {
        lemma_count_mono(d, a, b - 1);
    }
}

/// Lexicographic key of four dice faces (each below 7).
pub open spec fn dice_key(a: int, b: int, c: int, d: int) -> int {
    ((a * 7 + b) * 7 + c) * 7 + d
}

/// Key of a dice outcome move (other moves: -1).
pub open spec fn move_key(m: ClimbMove) -> int {
    match m {
        ClimbMove::Dice(a, b, c, d) => dice_key(a as int, b as int, c as int, d as int),
        _ => -1,
    }
}

/// The sorted dice `(a, b, c, d)` are among the outcomes of `v`.
pub open spec fn listed(v: Seq<(ClimbMove, u32)>, a: int, b: int, c: int, d: int) -> bool {
    exists|i: int| 0 <= i < v.len() && #[trigger] v[i].0 == ClimbMove::Dice(a as u8, b as u8, c as u8, d as u8)
}

/// Four faces that make a sorted roll.
pub open spec fn sorted_faces(a: int, b: int, c: int, d: int) -> bool {
    1 <= a <= b <= c <= d <= 6
}

/// A sorted roll with the number of ordered rolls that sort to it.
pub open spec fn outcome_ok(e: (ClimbMove, u32)) -> bool {
    match e.0 {
        ClimbMove::Dice(a, b, c, d) => dice_ok([a, b, c, d]) && e.1 == multiplicity_spec([a, b, c, d]),
        _ => false,
    }
}

/// The outcomes of a roll: every sorted roll once, in increasing lexicographic order,
/// each with the number of ordered rolls (out of 1296) that sort to it.
pub open spec fn outcomes_ok(v: Seq<(ClimbMove, u32)>) -> bool {
    &&& forall|i: int| 0 <= i < v.len() ==> outcome_ok(#[trigger] v[i])
    &&& forall|i: int, j: int| 0 <= i < j < v.len() ==> move_key(#[trigger] v[i].0) < move_key(#[trigger] v[j].0)
    &&& forall|a: int, b: int, c: int, d: int| #[trigger] sorted_faces(a, b, c, d) ==> listed(v, a, b, c, d)
}

proof fn lemma_listed_push(v: Seq<(ClimbMove, u32)>, x: (ClimbMove, u32), a: int, b: int, c: int, d: int)
    requires
        sorted_faces(a, b, c, d),
    ensures
        listed(v.push(x), a, b, c, d) <==> (listed(v, a, b, c, d) || x.0 == ClimbMove::Dice(a as u8, b as u8, c as u8, d as u8)),
{
    let w = v.push(x);
    let m = ClimbMove::Dice(a as u8, b as u8, c as u8, d as u8);
    if listed(v, a, b, c, d) {
        let i = choose|i: int| 0 <= i < v.len() && #[trigger] v[i].0 == m;
        assert(w[i].0 == m);
    }
    if x.0 == m {
        assert(w[v.len() as int].0 == m);
    }
    if listed(w, a, b, c, d) {
        let i = choose|i: int| 0 <= i < w.len() && #[trigger] w[i].0 == m;
        if i < v.len() {
            assert(v[i].0 == m);
        }
    }
}

/// All outcomes of rolling four dice, with their weights in 1296ths.
#[verifier::spinoff_prover]
#[verifier::rlimit(50)]
pub fn dice_outcomes() -> (out: Vec<(ClimbMove, u32)>)
    ensures
        outcomes_ok(out@),
{
    let mut out: Vec<(ClimbMove, u32)> = Vec::new();
    let mut a: u8 = 1;
    while a <= 6
        invariant
            1 <= a <= 7,
            forall|i: int|
                0 <= i < out@.len() ==> outcome_ok(#[trigger] out@[i]) && move_key(out@[i].0) < dice_key(a as int, a as int, a as int, a as int),
            forall|i: int, j: int| 0 <= i < j < out@.len() ==> move_key(#[trigger] out@[i].0) < move_key(#[trigger] out@[j].0),
            forall|p: int, q: int, r: int, t: int|
                #[trigger] sorted_faces(p, q, r, t) ==> (listed(out@, p, q, r, t) <==> dice_key(p, q, r, t) < dice_key(a as int, a as int, a as int, a as int)),
        decreases 7 - a,
    {
        let mut b: u8 = a;
        while b <= 6
            invariant
                1 <= a <= 6,
                a <= b <= 7,
                forall|i: int|
                    0 <= i < out@.len() ==> outcome_ok(#[trigger] out@[i]) && move_key(out@[i].0) < dice_key(a as int, b as int, b as int, b as int),
                forall|i: int, j: int| 0 <= i < j < out@.len() ==> move_key(#[trigger] out@[i].0) < move_key(#[trigger] out@[j].0),
                forall|p: int, q: int, r: int, t: int|
                    #[trigger] sorted_faces(p, q, r, t) ==> (listed(out@, p, q, r, t) <==> dice_key(p, q, r, t) < dice_key(a as int, b as int, b as int, b as int)),
            decreases 7 - b,
        {
            let mut c: u8 = b;
            while c <= 6
                invariant
                    1 <= a <= b <= 6,
                    b <= c <= 7,
                    forall|i: int|
                        0 <= i < out@.len() ==> outcome_ok(#[trigger] out@[i]) && move_key(out@[i].0) < dice_key(a as int, b as int, c as int, c as int),
                    forall|i: int, j: int| 0 <= i < j < out@.len() ==> move_key(#[trigger] out@[i].0) < move_key(#[trigger] out@[j].0),
                    forall|p: int, q: int, r: int, t: int|
                        #[trigger] sorted_faces(p, q, r, t) ==> (listed(out@, p, q, r, t) <==> dice_key(p, q, r, t) < dice_key(a as int, b as int, c as int, c as int)),
                decreases 7 - c,
            {
                let mut d: u8 = c;
                while d <= 6
                    invariant
                        1 <= a <= b <= c <= 6,
                        c <= d <= 7,
                        forall|i: int|
                            0 <= i < out@.len() ==> outcome_ok(#[trigger] out@[i]) && move_key(out@[i].0) < dice_key(a as int, b as int, c as int, d as int),
                        forall|i: int, j: int| 0 <= i < j < out@.len() ==> move_key(#[trigger] out@[i].0) < move_key(#[trigger] out@[j].0),
                        forall|p: int, q: int, r: int, t: int|
                            #[trigger] sorted_faces(p, q, r, t) ==> (listed(out@, p, q, r, t) <==> dice_key(p, q, r, t) < dice_key(a as int, b as int, c as int, d as int)),
                    decreases 7 - d,
                {
                    let mult = multiplicity(a, b, c, d);
                    let ghost old_out = out@;
                    out.push((ClimbMove::Dice(a, b, c, d), mult));
                    proof {
                        assert forall|p: int, q: int, r: int, t: int| #[trigger] sorted_faces(p, q, r, t) implies (listed(out@, p, q, r, t) <==> dice_key(p, q, r, t) < dice_key(a as int, b as int, c as int, d + 1)) by {
                            lemma_listed_push(old_out, (ClimbMove::Dice(a, b, c, d), mult), p, q, r, t);
                            assert(listed(old_out, p, q, r, t) <==> dice_key(p, q, r, t) < dice_key(a as int, b as int, c as int, d as int));
                        }
                    }
                    d += 1;
                }
                c += 1;
            }
            b += 1;
        }
        a += 1;
    }
    proof {
        assert forall|p: int, q: int, r: int, t: int| #[trigger] sorted_faces(p, q, r, t) implies listed(out@, p, q, r, t) by {
            assert(listed(out@, p, q, r, t) <==> dice_key(p, q, r, t) < dice_key(7, 7, 7, 7));
        }
    }
    out
}

impl Climb {
    /// The chance outcomes of a roll in flight, weighted in 1296ths; `None` when no roll
    /// is in flight or the game is over.
    pub fn chance_outcomes(&self) -> (r: Option<Vec<(ClimbMove, u32)>>)
        ensures
            r is None <==> (self.phase != Phase::Roll || self.terminal_spec()),
            r matches Some(v) ==> outcomes_ok(v@),
    {
        if self.phase != Phase::Roll || self.is_terminal() {
            return None;
        }
        Some(dice_outcomes())
    }
}

/// Text of a move: `Roll`, `Stop`, `Dice(a,b,c,d)`, `P4-9` or `P4`.
pub open spec fn move_text(m: ClimbMove) -> Seq<char> {
    match m {
        ClimbMove::Roll => seq!['R', 'o', 'l', 'l'],
        ClimbMove::Stop => seq!['S', 't', 'o', 'p'],
        ClimbMove::Dice(a, b, c, d) => seq!['D', 'i', 'c', 'e', '('] + dec(a as nat) + seq![','] + dec(b as nat) + seq![','] + dec(
            c as nat,
        ) + seq![','] + dec(d as nat) + seq![')'],
        ClimbMove::Pair(a, Some(b)) => seq!['P'] + dec(a as nat) + seq!['-'] + dec(b as nat),
        ClimbMove::Pair(a, None) => seq!['P'] + dec(a as nat),
    }
}

/// A pairing move read from text: `P<a>` or `P<a>-<b>`, split at the first `-`, each
/// number read as a `u8`.
pub open spec fn parse_pair_spec(cs: Seq<char>) -> Option<ClimbMove> {
    if cs.len() >= 1 && cs[0] == 'P' {
        let body = cs.subrange(1, cs.len() as int);
        match body.index_of_first('-') {
            Some(k) => match (parse_uint(body.subrange(0, k), 255), parse_uint(body.subrange(k + 1, body.len() as int), 255)) {
                (Some(a), Some(b)) => Some(ClimbMove::Pair(a as u8, Some(b as u8))),
                _ => None,
            },
            None => match parse_uint(body, 255) {
                Some(a) => Some(ClimbMove::Pair(a as u8, None)),
                None => None,
            },
        }
    } else {
        None
    }
}

impl ClimbMove {
    /// The move's text.
    pub fn encode(&self) -> (s: String)
        ensures
            s@ == move_text(*self),
    {
        let mut s = String::new();
        match *self {
            ClimbMove::Roll => push_all(&mut s, &['R', 'o', 'l', 'l']),
            ClimbMove::Stop => push_all(&mut s, &['S', 't', 'o', 'p']),
            ClimbMove::Dice(a, b, c, d) => {
                push_all(&mut s, &['D', 'i', 'c', 'e', '(']);
                push_dec(&mut s, a as u64);
                push_char(&mut s, ',');
                push_dec(&mut s, b as u64);
                push_char(&mut s, ',');
                push_dec(&mut s, c as u64);
                push_char(&mut s, ',');
                push_dec(&mut s, d as u64);
                push_char(&mut s, ')');
            },
            ClimbMove::Pair(a, second) => {
                push_char(&mut s, 'P');
                push_dec(&mut s, a as u64);
                match second {
                    Some(b) => {
                        push_char(&mut s, '-');
                        push_dec(&mut s, b as u64);
                    },
                    None => {},
                }
            },
        }
        assert(s@ =~= move_text(*self));
        s
    }
}

/// Read a pairing move: `"P4"`, `"P4-9"`, `"P8-8"`.
pub fn parse_pair(s: &str) -> (r: Option<ClimbMove>)
    ensures
        r == parse_pair_spec(s@),
{
    let cs = chars_of(s);
    if cs.len() < 1 || cs[0] != 'P' {
        return None;
    }
    let ghost body = cs@.subrange(1, cs@.len() as int);
    proof {
        body.index_of_first_ensures('-');
    }
    let mut k: usize = 1;
    while k < cs.len() && cs[k] != '-'
        invariant
            1 <= k <= cs@.len(),
            body == cs@.subrange(1, cs@.len() as int),
            forall|j: int| 1 <= j < k ==> cs@[j] != '-',
        decreases cs@.len() - k,
    {
        k += 1;
    }
    if k < cs.len() {
        proof {
            assert(body[k - 1] == '-');
            assert(body.contains('-'));
            let f = body.index_of_first('-')->0;
            if f != k - 1 {
                if f < k - 1 {
                    assert(body[f] == cs@[f + 1]);
                } else {
                    assert(body[k - 1] != '-');
                }
            }
            assert(body.subrange(0, k - 1) =~= cs@.subrange(1, k as int));
            assert(body.subrange(k as int, body.len() as int) =~= cs@.subrange(k + 1, cs@.len() as int));
        }
        let a = parse_uint_range(&cs, 1, k, 255);
        let b = parse_uint_range(&cs, k + 1, cs.len(), 255);
        match (a, b) {
            (Some(a), Some(b)) => Some(ClimbMove::Pair(a as u8, Some(b as u8))),
            _ => None,
        }
    } else {
        proof {
            assert forall|j: int| 0 <= j < body.len() implies body[j] != '-' by {
                assert(body[j] == cs@[j + 1]);
            }
            assert(!body.contains('-'));
        }
        match parse_uint_range(&cs, 1, cs.len(), 255) {
            Some(a) => Some(ClimbMove::Pair(a as u8, None)),
            None => None,
        }
    }
}

/// The decimal digits of a number hold no `-`.
proof fn lemma_dec_no_dash(v: nat)
    ensures
        !dec(v).contains('-'),
        dec(v).len() >= 1,
{
    lemma_dec(v);
    if dec(v).contains('-') {
        let i = choose|i: int| 0 <= i < dec(v).len() && dec(v)[i] == '-';
        assert(is_digit(dec(v)[i]));
    }
}

/// A pairing's text reads back as that pairing.
pub proof fn lemma_pair_text_round_trip(a: u8, second: Option<u8>)
    ensures
        parse_pair_spec(move_text(ClimbMove::Pair(a, second))) == Some(ClimbMove::Pair(a, second)),
{
    let cs = move_text(ClimbMove::Pair(a, second));
    let body = cs.subrange(1, cs.len() as int);
    lemma_parse_dec(a as nat, 255);
    lemma_dec_no_dash(a as nat);
    match second {
        Some(b) => {
            lemma_parse_dec(b as nat, 255);
            lemma_dec_no_dash(b as nat);
            assert(body =~= dec(a as nat) + seq!['-'] + dec(b as nat));
            let k = dec(a as nat).len() as int;
            body.index_of_first_ensures('-');
            assert(body[k] == '-');
            assert(body.contains('-'));
            let f = body.index_of_first('-')->0;
            if f < k {
                assert(body[f] == dec(a as nat)[f]);
                assert(dec(a as nat).contains('-'));
            }
            assert(f == k);
            assert(body.index_of_first('-') == Some(k));
            assert(cs[0] == 'P');
            assert(body.subrange(0, k) =~= dec(a as nat));
            assert(body.subrange(k + 1, body.len() as int) =~= dec(b as nat));
            assert(parse_uint(body.subrange(0, k), 255) == Some(a as int));
            assert(parse_uint(body.subrange(k + 1, body.len() as int), 255) == Some(b as int));
            assert(cs.len() >= 1);
            assert(parse_pair_spec(cs) == Some(ClimbMove::Pair((a as int) as u8, Some((b as int) as u8))));
            assert((a as int) as u8 == a);
            assert((b as int) as u8 == b);
            assert(second == Some(b));
        },
        None => {
            assert(body =~= dec(a as nat));
            body.index_of_first_ensures('-');
            assert(body.index_of_first('-') is None);
            assert(cs[0] == 'P');
            assert(parse_uint(body, 255) == Some(a as int));
            assert((a as int) as u8 == a);
        },
    }
}

/// Orders two faces.
fn order2(x: u8, y: u8) -> (r: (u8, u8))
    ensures
        r.0 <= r.1,
        (r.0 == x && r.1 == y) || (r.0 == y && r.1 == x),
{
    if x <= y {
        (x, y)
    } else {
        (y, x)
    }
}

/// Four rolled faces, sorted ascending.
fn roll_four(rng: &mut SmallRng) -> (d: [u8; 4])
    ensures
        dice_ok(d),
{
    let a = (below(rng, 6) + 1) as u8;
    let b = (below(rng, 6) + 1) as u8;
    let c = (below(rng, 6) + 1) as u8;
    let e = (below(rng, 6) + 1) as u8;
    let (a, b) = order2(a, b);
    let (c, e) = order2(c, e);
    let (a, c) = order2(a, c);
    let (b, e) = order2(b, e);
    let (b, c) = order2(b, c);
    [a, b, c, e]
}

impl Climb {
    /// `cs` is the text of a move of the current decision.
    pub open spec fn text_legal(&self, cs: Seq<char>) -> bool {
        !self.terminal_spec() && exists|i: int| 0 <= i < self.moves_spec().len() && move_text(#[trigger] self.moves_spec()[i]) == cs
    }

    /// Validate the move text `mov` against the current decision and play it. A `Roll`
    /// also lands its dice, drawn from `rng`, leaving a pairing choice or a bust.
    /// Returns false, leaving the game unchanged, for anything else.
    pub fn apply_text(&mut self, mov: &str, rng: &mut SmallRng) -> (ok: bool)
        requires
            old(self).wf(),
        ensures
            final(self).wf(),
            ok == old(self).text_legal(mov@),
            !ok ==> *final(self) == *old(self),
            ok && mov@ == move_text(ClimbMove::Roll) ==> exists|mid: Climb, d: [u8; 4]|
                dice_ok(d) && old(self).moved(mid, ClimbMove::Roll) && #[trigger] mid.moved(*final(self), ClimbMove::Dice(d[0], d[1], d[2], d[3])),
            ok && mov@ != move_text(ClimbMove::Roll) ==> exists|m: ClimbMove|
                old(self).moves_spec().contains(m) && move_text(m) == mov@ && #[trigger] old(self).moved(*final(self), m),
    {
        if self.is_terminal() {
            return false;
        }
        let moves = self.available_moves();
        let owned = mov.to_owned();
        let mut found: Option<usize> = None;
        let mut i: usize = 0;
        while i < moves.len()
            invariant
                moves@ == old(self).moves_spec(),
                owned@ == mov@,
                i <= moves@.len(),
                found matches Some(f) ==> f < moves@.len() && move_text(moves@[f as int]) == mov@,
                found is None ==> forall|j: int| 0 <= j < i ==> move_text(#[trigger] moves@[j]) != mov@,
            decreases moves@.len() - i,
        {
            if found.is_none() {
                let t = moves[i].encode();
                if t == owned {
                    found = Some(i);
                }
            }
            i += 1;
        }
        let f = match found {
            None => {
                return false;
            },
            Some(f) => f,
        };
        let ghost m0 = moves@[f as int];
        let cs = chars_of(mov);
        if chars_eq(cs.as_slice(), &['R', 'o', 'l', 'l']) {
            proof {
                assert(cs@ =~= move_text(ClimbMove::Roll));
            }
            self.make_move(&ClimbMove::Roll);
            let ghost mid = *self;
            let d = roll_four(rng);
            self.make_move(&ClimbMove::Dice(d[0], d[1], d[2], d[3]));
            return true;
        }
        proof {
            assert(m0 != ClimbMove::Roll) by {
                if m0 == ClimbMove::Roll {
                    assert(cs@ =~= seq!['R', 'o', 'l', 'l']);
                }
            }
        }
        if chars_eq(cs.as_slice(), &['S', 't', 'o', 'p']) {
            proof {
                if m0 != ClimbMove::Stop {
                    match m0 {
                        ClimbMove::Pair(a, _) => {
                            assert(mov@[0] == 'P');
                        },
                        ClimbMove::Dice(..) => {
                            assert(mov@[0] == 'D');
                        },
                        _ => {},
                    }
                }
            }
            self.make_move(&ClimbMove::Stop);
            return true;
        }
        proof {
            match m0 {
                ClimbMove::Pair(a, t) => {
                    lemma_pair_text_round_trip(a, t);
                },
                ClimbMove::Stop => {
                    assert(cs@ =~= seq!['S', 't', 'o', 'p']);
                },
                ClimbMove::Dice(..) => {
                    if self.phase == Phase::Pair {
                        self.lemma_pairing_ok(self.dice->0, m0);
                    }
                },
                _ => {},
            }
        }
        match parse_pair(mov) {
            None => false,
            Some(m) => {
                self.make_move(&m);
                true
            },
        }
    }
}

/// Decimal text of a signed number.
pub open spec fn int_text(v: int) -> Seq<char> {
    if v < 0 {
        seq!['-'] + dec((-v) as nat)
    } else {
        dec(v as nat)
    }
}

/// Appends the decimal text of a signed number.
fn push_int(s: &mut String, v: i64)
    requires
        v > i64::MIN,
    ensures
        final(s)@ == old(s)@ + int_text(v as int),
{
    if v < 0 {
        push_char(s, '-');
        push_dec(s, (-v) as u64);
        assert(final(s)@ =~= old(s)@ + int_text(v as int));
    } else {
        push_dec(s, v as u64);
    }
}

/// Texts of `ms` joined by `,`.
pub open spec fn moves_text(ms: Seq<ClimbMove>) -> Seq<char>
    decreases ms.len(),
{
    if ms.len() == 0 {
        seq![]
    } else if ms.len() == 1 {
        move_text(ms[0])
    } else {
        moves_text(ms.drop_last()) + seq![','] + move_text(ms.last())
    }
}

impl Climb {
    /// Seats' banked markers in column `idx`, for the first `k` seats, joined by `,`.
    pub open spec fn banked_text(&self, idx: int, k: int) -> Seq<char>
        decreases k,
    {
        if k <= 0 {
            seq![]
        } else if k == 1 {
            dec(self.banked@[0][idx] as nat)
        } else {
            self.banked_text(idx, k - 1) + seq![','] + dec(self.banked@[k - 1][idx] as nat)
        }
    }

    /// Field of column `idx`: `height:claimedBy:runner:banked0,banked1,...`.
    pub open spec fn col_text(&self, idx: int) -> Seq<char> {
        dec(height(idx) as nat) + seq![':'] + int_text(self.claimed[idx] as int) + seq![':'] + int_text(
            match runner_at(self.runners@, idx) {
                Some(p) => p as int,
                None => -1,
            },
        ) + seq![':'] + self.banked_text(idx, self.num_players as int)
    }

    /// The first `k` column fields, each preceded by `|`.
    pub open spec fn cols_text(&self, k: int) -> Seq<char>
        decreases k,
    {
        if k <= 0 {
            seq![]
        } else {
            self.cols_text(k - 1) + seq!['|'] + self.col_text(k - 1)
        }
    }

    pub open spec fn phase_word(&self) -> Seq<char> {
        if self.terminal_spec() {
            seq!['o', 'v', 'e', 'r']
        } else if self.phase == Phase::Pair {
            seq!['p', 'a', 'i', 'r']
        } else {
            seq!['a', 'c', 't']
        }
    }

    /// The board: `meta|dice|col2|...|col12`, with meta
    /// `current,numPlayers,toWin,turns,turnCap,phase,busted` and dice `a,b,c,d` or `-`.
    pub open spec fn board_text(&self) -> Seq<char> {
        self.meta_text() + seq!['|'] + self.dice_text() + self.cols_text(NUM_COLS as int)
    }

    /// `current,numPlayers,toWin,turns,turnCap,phase,busted`.
    pub open spec fn meta_text(&self) -> Seq<char> {
        dec(self.current as nat) + seq![','] + dec(self.num_players as nat) + seq![','] + dec(self.to_win as nat) + seq![',']
            + dec(self.turns as nat) + seq![','] + dec(TURN_CAP as nat) + seq![','] + self.phase_word() + seq![','] + (if self.busted {
            seq!['1']
        } else {
            seq!['0']
        })
    }

    /// The dice on the table, `a,b,c,d`, or `-`.
    pub open spec fn dice_text(&self) -> Seq<char> {
        match self.dice {
            Some(d) => dec(d[0] as nat) + seq![','] + dec(d[1] as nat) + seq![','] + dec(d[2] as nat) + seq![','] + dec(d[3] as nat),
            None => seq!['-'],
        }
    }

    fn push_meta(&self, s: &mut String)
        ensures
            final(s)@ == old(s)@ + self.meta_text(),
    {
        push_dec(s, self.current as u64);
        push_char(s, ',');
        push_dec(s, self.num_players as u64);
        push_char(s, ',');
        push_dec(s, self.to_win as u64);
        push_char(s, ',');
        push_dec(s, self.turns as u64);
        push_char(s, ',');
        push_dec(s, TURN_CAP as u64);
        push_char(s, ',');
        if self.is_terminal() {
            push_all(s, &['o', 'v', 'e', 'r']);
        } else if self.phase == Phase::Pair {
            push_all(s, &['p', 'a', 'i', 'r']);
        } else {
            push_all(s, &['a', 'c', 't']);
        }
        push_char(s, ',');
        push_char(s, if self.busted { '1' } else { '0' });
        assert(final(s)@ =~= old(s)@ + self.meta_text());
    }

    fn push_dice(&self, s: &mut String)
        ensures
            final(s)@ == old(s)@ + self.dice_text(),
    {
        match self.dice {
            Some(d) => {
                push_dec(s, d[0] as u64);
                push_char(s, ',');
                push_dec(s, d[1] as u64);
                push_char(s, ',');
                push_dec(s, d[2] as u64);
                push_char(s, ',');
                push_dec(s, d[3] as u64);
            },
            None => push_char(s, '-'),
        }
        assert(final(s)@ =~= old(s)@ + self.dice_text());
    }

    /// The board string (see `board_text`).
    pub fn board_string(&self) -> (s: String)
        requires
            self.wf(),
        ensures
            s@ == self.board_text(),
    {
        let mut s = String::new();
        self.push_meta(&mut s);
        push_char(&mut s, '|');
        self.push_dice(&mut s);
        let ghost head = s@;
        assert(head + self.cols_text(0) =~= head);
        let mut idx: usize = 0;
        while idx < NUM_COLS
            invariant
                self.wf(),
                idx <= NUM_COLS,
                s@ == head + self.cols_text(idx as int),
            decreases NUM_COLS - idx,
        {
            self.push_col(&mut s, idx);
            assert(s@ =~= head + self.cols_text(idx + 1));
            idx += 1;
        }
        assert(s@ =~= self.board_text());
        s
    }

    /// Appends `|` and the field of column `idx`.
    fn push_col(&self, s: &mut String, idx: usize)
        requires
            self.wf(),
            idx < NUM_COLS,
        ensures
            final(s)@ == old(s)@ + seq!['|'] + self.col_text(idx as int),
    {
        push_char(s, '|');
        push_dec(s, height_of(idx) as u64);
        push_char(s, ':');
        push_int(s, self.claimed[idx] as i64);
        push_char(s, ':');
        let runner: i64 = match self.has_runner(idx) {
            Some(p) => p as i64,
            None => -1,
        };
        push_int(s, runner);
        push_char(s, ':');
        let ghost mid = s@;
        let mut p: usize = 0;
        while p < self.num_players as usize
            invariant
                self.wf(),
                idx < NUM_COLS,
                p <= self.num_players,
                s@ == mid + self.banked_text(idx as int, p as int),
            decreases self.num_players - p,
        {
            if p > 0 {
                push_char(s, ',');
            }
            push_dec(s, self.banked[p][idx] as u64);
            proof {
                if p == 0 {
                    assert(self.banked_text(idx as int, 1) == dec(self.banked@[0][idx as int] as nat));
                }
            }
            assert(s@ =~= mid + self.banked_text(idx as int, p + 1));
            p += 1;
        }
        assert(final(s)@ =~= old(s)@ + seq!['|'] + self.col_text(idx as int));
    }

    /// The result: empty while running, the winning seat counted from 1, or `Draw`.
    pub open spec fn result_text(&self) -> Seq<char> {
        if !self.terminal_spec() {
            seq![]
        } else {
            match self.result_seat_spec() {
                Some(w) => dec((w + 1) as nat),
                None => seq!['D', 'r', 'a', 'w'],
            }
        }
    }

    pub fn result_string(&self) -> (s: String)
        requires
            self.wf(),
        ensures
            s@ == self.result_text(),
    {
        let mut s = String::new();
        if !self.is_terminal() {
            return s;
        }
        match self.result_seat() {
            Some(w) => push_dec(&mut s, w as u64 + 1),
            None => push_all(&mut s, &['D', 'r', 'a', 'w']),
        }
        s
    }

    /// The legal moves of the current decision, as texts joined by `,`.
    pub fn legal_moves_string(&self) -> (s: String)
        requires
            self.wf(),
        ensures
            s@ == moves_text(self.moves_spec()),
    {
        let moves = self.available_moves();
        let mut s = String::new();
        let mut i: usize = 0;
        while i < moves.len()
            invariant
                i <= moves@.len(),
                s@ == moves_text(moves@.take(i as int)),
            decreases moves@.len() - i,
        {
            if i > 0 {
                push_char(&mut s, ',');
            }
            let t = moves[i].encode();
            push_str(&mut s, t.as_str());
            proof {
                assert(moves@.take(i + 1).drop_last() =~= moves@.take(i as int));
            }
            i += 1;
        }
        assert(moves@.take(moves@.len() as int) =~= moves@);
        s
    }
}

/// A claimed column stays with its owner whatever is played next.
pub proof fn lemma_claims_permanent(g: Climb, next: Climb, m: ClimbMove, i: int)
    requires
        g.wf(),
        g.moved(next, m),
        0 <= i < NUM_COLS,
        g.claimed[i] >= 0,
    ensures
        next.claimed[i] == g.claimed[i],
{
}

/// Once the game is over, no move is offered.
pub proof fn lemma_no_moves_when_over(g: Climb)
    requires
        g.terminal_spec(),
    ensures
        g.moves_spec().len() == 0,
{
}


/// Each runner of `rs` is either the runner of `rs` at the same place or one in column
/// `idx`.
proof fn lemma_stepped_cols(rs: Seq<(usize, u8)>, idx: int, start: int)
    requires
        0 <= idx < NUM_COLS,
    ensures
        forall|k: int|
            0 <= k < stepped(rs, idx, start).len() ==> (#[trigger] stepped(rs, idx, start)[k]).0 == idx || (k < rs.len()
                && stepped(rs, idx, start)[k] == rs[k]),
{
}

/// `dedup` empties only the empty sequence.
proof fn lemma_dedup_empty(s: Seq<ClimbMove>)
    ensures
        dedup(s).len() == 0 <==> s.len() == 0,
    decreases s.len(),
{
    if s.len() > 0 {
        lemma_dedup_empty(s.drop_last());
    }
}

impl Climb {
    /// Every runner stands on a column that nobody has claimed.
    pub open spec fn runners_open(&self) -> bool {
        forall|j: int| 0 <= j < self.runners@.len() ==> self.claimed[(#[trigger] self.runners@[j]).0 as int] < 0
    }

    /// A split offers nothing exactly when neither of its sums can advance.
    proof fn lemma_split_empty(&self, x: int, y: int)
        requires
            2 <= x <= 12,
            2 <= y <= 12,
        ensures
            self.split_options(x, y).len() == 0 <==> !self.can_advance_spec(x - 2) && !self.can_advance_spec(y - 2),
    {
    }

    /// The dice bust the turn exactly when none of the six sums of their three splits
    /// names a column the player can advance.
    pub proof fn lemma_bust_exactly_when_nothing_advances(&self, d: [u8; 4])
        requires
            dice_ok(d),
        ensures
            self.pairings_for(d).len() == 0 <==> !(self.can_advance_spec(d[0] + d[1] - 2) || self.can_advance_spec(d[2] + d[3] - 2)
                || self.can_advance_spec(d[0] + d[2] - 2) || self.can_advance_spec(d[1] + d[3] - 2) || self.can_advance_spec(d[0] + d[3] - 2)
                || self.can_advance_spec(d[1] + d[2] - 2)),
    {
        let (a, b, c, e) = (d[0] as int, d[1] as int, d[2] as int, d[3] as int);
        self.lemma_split_empty(a + b, c + e);
        self.lemma_split_empty(a + c, b + e);
        self.lemma_split_empty(a + e, b + c);
        let all = self.split_options(a + b, c + e) + self.split_options(a + c, b + e) + self.split_options(a + e, b + c);
        lemma_dedup_empty(all);
    }

    /// No move puts a runner on a claimed column: once every runner stands on an open
    /// column, every legal move keeps it so.
    pub proof fn lemma_runners_stay_open(&self, next: Climb, m: ClimbMove)
        requires
            self.wf(),
            self.runners_open(),
            self.legal(m),
            self.moved(next, m),
        ensures
            next.runners_open(),
    {
        if let ClimbMove::Pair(f, second) = m {
            let d = self.dice->0;
            assert(self.moves_spec().contains(m));
            self.lemma_pairing_ok(d, m);
            let r0 = self.runners@;
            let r1 = stepped(r0, f - 2, self.banked_at(f - 2));
            lemma_stepped_cols(r0, f - 2, self.banked_at(f - 2));
            assert forall|j: int| 0 <= j < r1.len() implies self.claimed[(#[trigger] r1[j]).0 as int] < 0 by {
                if r1[j].0 != f - 2 {
                    assert(self.claimed[r0[j].0 as int] < 0);
                }
            }
            if let Some(t) = second {
                lemma_stepped_cols(r1, t - 2, self.banked_at(t - 2));
                let r2 = stepped(r1, t - 2, self.banked_at(t - 2));
                assert forall|j: int| 0 <= j < r2.len() implies self.claimed[(#[trigger] r2[j]).0 as int] < 0 by {
                    if r2[j].0 != t - 2 {
                        assert(self.claimed[r1[j].0 as int] < 0);
                    }
                }
            }
        }
    }
}

} // verus!
