//! Oware: two rows of `pits` houses on one ring and no stores. Seeds are sown one
//! per house counterclockwise, never back into the emptied house. A last seed that
//! makes an opponent's house hold 2 or 3 captures it, and the capture runs back
//! through the opponent's houses holding 2 or 3, unless it would take every seed
//! of the opponent's row. A starved opponent must be fed when possible.
use vstd::prelude::*;
use crate::outcome::Outcome;
use crate::text::{push_char, push_str, push_dec, push_joined, u16s, join_nums, dec, chars_of, parse_uint, parse_uint_range};

verus! {

pub const MAX_PITS: usize = 8;
pub const MAX_RING: usize = 16;
pub const NUM_PLAYERS: usize = 2;
/// Plies after which the game is adjudicated: each side sweeps its own row.
pub const PLY_CAP: u32 = 300;

#[derive(Clone, Debug)]
pub struct Oware {
    pub board: [u16; 16],
    pub score: [u16; 2],
    pub pits: usize,
    pub seeds_per: u16,
    pub current: u8,
    pub ring_len: usize,
    pub ply: u32,
    pub finished: bool,
}

/// Play house `0` of the side to move's row (counted from its row start).
#[derive(Clone, Copy, Debug, PartialEq, Eq, Structural)]
pub struct OwareMove(pub u8);

/// Seeds in cells `lo..hi`.
pub open spec fn sum_range(b: Seq<u16>, lo: int, hi: int) -> int
    decreases hi - lo,
{
    if hi <= lo {
        0
    } else {
        sum_range(b, lo, hi - 1) + b[hi - 1]
    }
}

/// Seeds on the whole board.
pub open spec fn total(b: Seq<u16>) -> int {
    sum_range(b, 0, 16)
}

proof fn lemma_sum_nonneg(b: Seq<u16>, lo: int, hi: int)
    ensures
        sum_range(b, lo, hi) >= 0,
    decreases hi - lo,
{
    if hi > lo {
        lemma_sum_nonneg(b, lo, hi - 1);
    }
}

proof fn lemma_sum_split(b: Seq<u16>, lo: int, mid: int, hi: int)
    requires
        lo <= mid <= hi,
    ensures
        sum_range(b, lo, hi) == sum_range(b, lo, mid) + sum_range(b, mid, hi),
    decreases hi - mid,
{
    if hi > mid {
        lemma_sum_split(b, lo, mid, hi - 1);
    }
}

proof fn lemma_sum_update(b: Seq<u16>, i: int, v: u16, lo: int, hi: int)
    requires
        0 <= i < b.len(),
        0 <= lo,
        hi <= b.len(),
    ensures
        sum_range(b.update(i, v), lo, hi) == sum_range(b, lo, hi) + if lo <= i < hi { v - b[i] } else { 0 },
    decreases hi - lo,
{
    if hi > lo {
        lemma_sum_update(b, i, v, lo, hi - 1);
    }
}

/// Two boards that agree on `lo..hi` have the same seeds there.
proof fn lemma_sum_agree(a: Seq<u16>, b: Seq<u16>, lo: int, hi: int)
    requires
        forall|i: int| lo <= i < hi ==> a[i] == b[i],
    ensures
        sum_range(a, lo, hi) == sum_range(b, lo, hi),
    decreases hi - lo,
{
    if hi > lo {
        lemma_sum_agree(a, b, lo, hi - 1);
    }
}

/// A part of the board holds at most the whole board, and a cell at most its part.
proof fn lemma_sum_le_total(b: Seq<u16>, lo: int, hi: int)
    requires
        b.len() == 16,
        0 <= lo <= hi <= 16,
    ensures
        0 <= sum_range(b, lo, hi) <= total(b),
        forall|i: int| lo <= i < hi ==> b[i] <= sum_range(b, lo, hi),
{
    lemma_sum_split(b, 0, lo, 16);
    lemma_sum_split(b, lo, hi, 16);
    lemma_sum_nonneg(b, 0, lo);
    lemma_sum_nonneg(b, lo, hi);
    lemma_sum_nonneg(b, hi, 16);
    assert forall|i: int| lo <= i < hi implies b[i] <= sum_range(b, lo, hi) by {
        lemma_sum_split(b, lo, i, hi);
        lemma_sum_split(b, i, i + 1, hi);
        lemma_sum_nonneg(b, lo, i);
        lemma_sum_nonneg(b, i + 1, hi);
        assert(sum_range(b, i, i + 1) == sum_range(b, i, i) + b[i]);
    }
}

impl Oware {
    /// The shape of the ring and room for every seed in a 16-bit count.
    pub open spec fn sound(&self) -> bool {
        &&& 1 <= self.pits <= 8
        &&& self.ring_len == 2 * self.pits
        &&& self.current < 2
        &&& total(self.board@) + self.score@[0] + self.score@[1] <= u16::MAX
        &&& self.ring_len * self.seeds_per <= u16::MAX
    }

    /// A sound position in which a running game is still below the ply cap.
    pub open spec fn wf(&self) -> bool {
        &&& self.sound()
        &&& !self.finished ==> self.ply < PLY_CAP
    }

    /// Seeds in the game: on the board and in the two piles.
    pub open spec fn seeds_in_play(&self) -> int {
        total(self.board@) + self.score@[0] + self.score@[1]
    }

}

/// The player whose row holds ring cell `i`, with `pits` houses per row.
pub open spec fn owner(pits: int, i: int) -> int {
    i / pits
}

/// The ring cell after `p`, on a ring of two rows of `pits` houses.
pub open spec fn next_cell(pits: int, p: int) -> int {
    if p + 1 >= 2 * pits {
        0
    } else {
        p + 1
    }
}

/// The house that receives the `k`-th seed sown from `start`: the next house on the
/// ring, stepping over `start` itself.
pub open spec fn sow_pos(pits: int, start: int, k: int) -> int
    decreases k,
{
    if k <= 0 {
        start
    } else {
        let q = next_cell(pits, sow_pos(pits, start, k - 1));
        if q == start {
            next_cell(pits, q)
        } else {
            q
        }
    }
}

/// Board `b` after lifting the seeds of `start` and sowing `k` of them.
pub open spec fn sow_spec(pits: int, b: Seq<u16>, start: int, k: int) -> Seq<u16>
    decreases k,
{
    if k <= 0 {
        b.update(start, 0)
    } else {
        let b1 = sow_spec(pits, b, start, k - 1);
        let q = sow_pos(pits, start, k);
        b1.update(q, (b1[q] + 1) as u16)
    }
}

/// Seeds on player `p`'s row of board `b`.
pub open spec fn row_sum(pits: int, b: Seq<u16>, p: int) -> int {
    sum_range(b, p * pits, p * pits + pits)
}

/// Houses holding 2 or 3 seeds in a run walking back from `pos`, not below `lo`.
pub open spec fn run_len(b: Seq<u16>, pos: int, lo: int) -> int
    decreases pos - lo + 1,
{
    if pos < lo {
        0
    } else if b[pos] == 2 || b[pos] == 3 {
        1 + run_len(b, pos - 1, lo)
    } else {
        0
    }
}

proof fn lemma_run_len_bounds(b: Seq<u16>, pos: int, lo: int)
    ensures
        0 <= run_len(b, pos, lo),
        pos >= lo ==> run_len(b, pos, lo) <= pos - lo + 1,
        pos < lo ==> run_len(b, pos, lo) == 0,
    decreases pos - lo + 1,
{
    if pos >= lo {
        lemma_run_len_bounds(b, pos - 1, lo);
    }
}

/// The capture rule on board `b` after the last seed of player `cur` fell on `last`:
/// the board and the seeds taken.
pub open spec fn capture_spec(pits: int, b: Seq<u16>, last: int, cur: int) -> (Seq<u16>, int) {
    let opp = 1 - cur;
    let n = run_len(b, last, opp * pits);
    let t = sum_range(b, last - n + 1, last + 1);
    if owner(pits, last) != opp || n == 0 || t >= row_sum(pits, b, opp) {
        (b, 0)
    } else {
        (Seq::new(16, |i: int| if last - n < i <= last { 0u16 } else { b[i] }), t)
    }
}

/// Some seed sown from house `j` of player `cur` on board `b` reaches the other row.
pub open spec fn feeds(pits: int, b: Seq<u16>, cur: int, j: int) -> bool {
    let start = cur * pits + j;
    exists|k: int| 1 <= k <= b[start] && #[trigger] owner(pits, sow_pos(pits, start, k)) != cur
}

/// House `j` may be played by `cur` on board `b`: it holds seeds, and it feeds the
/// opponent when the opponent's row is empty.
pub open spec fn playable(pits: int, b: Seq<u16>, cur: int, j: int) -> bool {
    b[cur * pits + j] > 0 && (row_sum(pits, b, 1 - cur) != 0 || feeds(pits, b, cur, j))
}

/// The playable houses among the first `n` of player `cur`.
pub open spec fn moves_upto(pits: int, b: Seq<u16>, cur: int, n: int) -> Seq<OwareMove>
    decreases n,
{
    if n <= 0 {
        seq![]
    } else {
        moves_upto(pits, b, cur, n - 1) + if playable(pits, b, cur, n - 1) {
            seq![OwareMove((n - 1) as u8)]
        } else {
            seq![]
        }
    }
}

/// Every row swept into its owner's pile: the board and the piles.
pub open spec fn sweep_spec(pits: int, b: Seq<u16>, s: Seq<u16>) -> (Seq<u16>, Seq<u16>) {
    (
        Seq::new(16, |i: int| if i < 2 * pits { 0u16 } else { b[i] }),
        seq![(s[0] + row_sum(pits, b, 0)) as u16, (s[1] + row_sum(pits, b, 1)) as u16],
    )
}

/// The end-of-move check on board `b` and piles `s`, with `cur` to move after `ply`
/// plies and `all` seeds in the game: more than half the seeds in one pile ends the
/// game; so do the ply cap and a side to move without a legal house, after sweeping
/// the rows. The board, the piles and whether the game is over.
pub open spec fn end_spec(pits: int, all: int, b: Seq<u16>, s: Seq<u16>, cur: int, ply: int, fin: bool) -> (
    Seq<u16>,
    Seq<u16>,
    bool,
) {
    if s[0] * 2 > all || s[1] * 2 > all {
        (b, s, true)
    } else if ply >= PLY_CAP || fin || moves_upto(pits, b, cur, pits).len() == 0 {
        (sweep_spec(pits, b, s).0, sweep_spec(pits, b, s).1, true)
    } else {
        (b, s, fin)
    }
}

impl Oware {
    /// The legal houses of the side to move, none once the game is over.
    pub open spec fn moves_spec(&self) -> Seq<OwareMove> {
        if self.finished {
            seq![]
        } else {
            moves_upto(self.pits as int, self.board@, self.current as int, self.pits as int)
        }
    }

    /// The position after the side to move plays house `j`: the board, the piles and
    /// whether the game is over (the turn passes and the ply count grows by one).
    pub open spec fn after(&self, j: int) -> (Seq<u16>, Seq<u16>, bool) {
        let pits = self.pits as int;
        let cur = self.current as int;
        let start = cur * pits + j;
        let k = self.board@[start] as int;
        let b1 = sow_spec(pits, self.board@, start, k);
        let (b2, t) = capture_spec(pits, b1, sow_pos(pits, start, k), cur);
        let s = self.score@.update(cur, (self.score@[cur] + t) as u16);
        end_spec(pits, self.ring_len * self.seeds_per, b2, s, 1 - cur, self.ply + 1, self.finished)
    }
}

/// A house of player `p` lies on the ring, in `p`'s row.
proof fn lemma_house(pits: int, p: int, j: int)
    requires
        1 <= pits <= 8,
        0 <= p < 2,
        0 <= j < pits,
    ensures
        0 <= p * pits + j < 2 * pits,
        (p * pits + j) / pits == p,
{
    assert(0 <= p * pits + j < 2 * pits) by (nonlinear_arith)
        requires
            0 <= p < 2,
            0 <= j < pits,
    ;
    vstd::arithmetic::div_mod::lemma_fundamental_div_mod_converse(p * pits + j, pits, p, j);
}

/// A cell of the ring belongs to one of the two rows and lies within it.
proof fn lemma_owner(pits: int, i: int)
    requires
        1 <= pits <= 8,
        0 <= i < 2 * pits,
    ensures
        0 <= i / pits < 2,
        (i / pits) * pits <= i < (i / pits) * pits + pits,
{
    vstd::arithmetic::div_mod::lemma_fundamental_div_mod(i, pits);
    vstd::arithmetic::div_mod::lemma_mod_pos_bound(i, pits);
    if i < pits {
        vstd::arithmetic::div_mod::lemma_fundamental_div_mod_converse(i, pits, 0, i);
    } else {
        vstd::arithmetic::div_mod::lemma_fundamental_div_mod_converse(i, pits, 1, i - pits);
    }
}


impl Oware {
    /// A fresh game: `seeds_per` seeds in every house, empty piles, the first player
    /// to move.
    pub fn new(pits: usize, seeds_per: u16) -> (g: Self)
        requires
            1 <= pits <= 8,
            2 * pits * seeds_per <= u16::MAX,
        ensures
            g.wf(),
            g.pits == pits,
            g.seeds_per == seeds_per,
            g.ring_len == 2 * pits,
            g.current == 0,
            g.ply == 0,
            !g.finished,
            g.score@ == seq![0u16, 0u16],
            forall|i: int| 0 <= i < 16 ==> #[trigger] g.board@[i] == (if i < 2 * pits { seeds_per } else { 0 }),
    {
        let ring_len = 2 * pits;
        let mut board = [0u16; 16];
        let mut i: usize = 0;
        while i < ring_len
            invariant
                1 <= pits <= 8,
                ring_len == 2 * pits,
                2 * pits * seeds_per <= u16::MAX,
                i <= ring_len,
                forall|j: int| 0 <= j < i ==> #[trigger] board@[j] == seeds_per,
                forall|j: int| i <= j < 16 ==> #[trigger] board@[j] == 0,
                sum_range(board@, 0, i as int) == i * seeds_per,
            decreases ring_len - i,
        {
            let ghost before = board@;
            board[i] = seeds_per;
            proof {
                lemma_sum_update(before, i as int, seeds_per, 0, i as int);
                assert(sum_range(board@, 0, i + 1) == sum_range(board@, 0, i as int) + board@[i as int]);
                assert((i + 1) * seeds_per == i * seeds_per + seeds_per) by (nonlinear_arith);
            }
            i += 1;
        }
        proof {
            lemma_sum_split(board@, 0, ring_len as int, 16);
            assert(sum_range(board@, ring_len as int, 16) == 0) by {
                lemma_sum_agree(board@, Seq::new(16, |j: int| 0u16), ring_len as int, 16);
                lemma_zero_sum(ring_len as int, 16);
            }
            assert(ring_len * seeds_per <= u16::MAX);
        }
        Oware {
            board,
            score: [0, 0],
            pits,
            seeds_per,
            current: 0,
            ring_len,
            ply: 0,
            finished: false,
        }
    }
}

proof fn lemma_zero_sum(lo: int, hi: int)
    requires
        0 <= lo,
        hi <= 16,
    ensures
        sum_range(Seq::new(16, |j: int| 0u16), lo, hi) == 0,
    decreases hi - lo,
{
    if hi > lo {
        lemma_zero_sum(lo, hi - 1);
    }
}

impl Oware {
    pub fn ring_len(&self) -> (n: usize)
        ensures
            n == self.ring_len,
    {
        self.ring_len
    }

    /// All the seeds of the game: houses times seeds per house at the start.
    pub fn total_seeds(&self) -> (t: u16)
        requires
            self.sound(),
        ensures
            t == self.ring_len * self.seeds_per,
    {
        (self.ring_len as u16) * self.seeds_per
    }

    fn step(&self, pos: usize) -> (q: usize)
        requires
            self.sound(),
            pos < self.ring_len,
        ensures
            q == next_cell(self.pits as int, pos as int),
            q < self.ring_len,
    {
        let n = pos + 1;
        if n >= self.ring_len {
            0
        } else {
            n
        }
    }

    /// Seeds on player `p`'s row.
    fn row_sum_exec(&self, p: usize) -> (s: u16)
        requires
            self.sound(),
            p < 2,
        ensures
            s == row_sum(self.pits as int, self.board@, p as int),
    {
        proof {
            lemma_house(self.pits as int, p as int, 0);
        }
        let start = p * self.pits;
        proof {
            assert(start + self.pits <= 16) by (nonlinear_arith)
                requires
                    start == p * self.pits,
                    p < 2,
                    self.pits <= 8,
            ;
            lemma_sum_le_total(self.board@, start as int, (start + self.pits) as int);
        }
        let mut sum: u16 = 0;
        let mut i: usize = start;
        while i < start + self.pits
            invariant
                self.sound(),
                start == p * self.pits,
                start + self.pits <= 16,
                start <= i <= start + self.pits,
                sum == sum_range(self.board@, start as int, i as int),
                sum_range(self.board@, start as int, (start + self.pits) as int) <= u16::MAX,
            decreases start + self.pits - i,
        {
            proof {
                lemma_sum_split(self.board@, start as int, (i + 1) as int, (start + self.pits) as int);
                lemma_sum_nonneg(self.board@, (i + 1) as int, (start + self.pits) as int);
            }
            sum = sum + self.board[i];
            i += 1;
        }
        sum
    }

    /// Lift the seeds of the side to move's house `local` and sow them; the house
    /// where the last one fell.
    fn sow(&mut self, local: usize) -> (last: usize)
        requires
            old(self).sound(),
            local < old(self).pits,
        ensures
            final(self).board@ == sow_spec(
                old(self).pits as int,
                old(self).board@,
                old(self).current * old(self).pits + local,
                old(self).board@[old(self).current * old(self).pits + local] as int,
            ),
            last == sow_pos(
                old(self).pits as int,
                old(self).current * old(self).pits + local,
                old(self).board@[old(self).current * old(self).pits + local] as int,
            ),
            last < old(self).ring_len,
            final(self).score == old(self).score,
            final(self).pits == old(self).pits,
            final(self).seeds_per == old(self).seeds_per,
            final(self).current == old(self).current,
            final(self).ring_len == old(self).ring_len,
            final(self).ply == old(self).ply,
            final(self).finished == old(self).finished,
            total(final(self).board@) == total(old(self).board@),
    {
        let ghost g0 = *self;
        proof {
            lemma_house(self.pits as int, self.current as int, local as int);
        }
        let cur = self.current as usize;
        let start = cur * self.pits + local;
        let seeds = self.board[start];
        self.board[start] = 0;
        proof {
            lemma_sum_update(g0.board@, start as int, 0, 0, 16);
        }
        let mut pos = start;
        let mut k: u16 = 0;
        while k < seeds
            invariant
                g0.sound(),
                self.pits == g0.pits,
                self.seeds_per == g0.seeds_per,
                self.current == g0.current,
                self.ring_len == g0.ring_len,
                self.score == g0.score,
                self.ply == g0.ply,
                self.finished == g0.finished,
                start < g0.ring_len,
                seeds == g0.board@[start as int],
                k <= seeds,
                self.board@.len() == 16,
                pos < g0.ring_len,
                self.board@ == sow_spec(g0.pits as int, g0.board@, start as int, k as int),
                pos == sow_pos(g0.pits as int, start as int, k as int),
                total(self.board@) == total(g0.board@) - seeds + k,
            decreases seeds - k,
        {
            pos = self.step(pos);
            if pos == start {
                pos = self.step(pos);
            }
            proof {
                lemma_sum_le_total(self.board@, pos as int, pos + 1);
                lemma_sum_le_total(g0.board@, start as int, start + 1);
            }
            let ghost before = self.board@;
            let v = self.board[pos];
            self.board[pos] = v + 1;
            proof {
                lemma_sum_update(before, pos as int, (v + 1) as u16, 0, 16);
            }
            k += 1;
        }
        pos
    }

    /// The length of the run of opponent houses holding 2 or 3 that ends at `last`.
    fn capture_run(&self, last: usize, cur: usize) -> (n: usize)
        requires
            self.sound(),
            last < self.ring_len,
            cur < 2,
        ensures
            owner(self.pits as int, last as int) == 1 - cur ==> n == run_len(self.board@, last as int, (1 - cur) * self.pits),
            owner(self.pits as int, last as int) != 1 - cur ==> n == 0,
            n <= last + 1,
            owner(self.pits as int, last as int) == 1 - cur ==> (1 - cur) * self.pits <= last + 1 - n,
    {
        let opp = 1 - cur;
        if last / self.pits != opp {
            return 0;
        }
        proof {
            lemma_owner(self.pits as int, last as int);
        }
        let lo = opp * self.pits;
        let mut n: usize = 0;
        while n <= last - lo && (self.board[last - n] == 2 || self.board[last - n] == 3)
            invariant
                self.sound(),
                lo == opp * self.pits,
                lo <= last < self.ring_len,
                n <= last - lo + 1,
                run_len(self.board@, last as int, lo as int) == n + run_len(self.board@, last - n, lo as int),
            decreases last - lo + 1 - n,
        {
            n += 1;
        }
        proof {
            lemma_run_len_bounds(self.board@, last - n, lo as int);
        }
        n
    }
}

impl Oware {
    /// The capture rule after the last seed of `cur` fell on `last`.
    fn apply_capture(&mut self, last: usize, cur: usize)
        requires
            old(self).sound(),
            last < old(self).ring_len,
            cur < 2,
        ensures
            final(self).board@ == capture_spec(old(self).pits as int, old(self).board@, last as int, cur as int).0,
            final(self).score@ == old(self).score@.update(
                cur as int,
                (old(self).score@[cur as int] + capture_spec(old(self).pits as int, old(self).board@, last as int, cur as int).1) as u16,
            ),
            final(self).pits == old(self).pits,
            final(self).seeds_per == old(self).seeds_per,
            final(self).current == old(self).current,
            final(self).ring_len == old(self).ring_len,
            final(self).ply == old(self).ply,
            final(self).finished == old(self).finished,
            final(self).seeds_in_play() == old(self).seeds_in_play(),
    {
        let ghost g0 = *self;
        let ghost b = self.board@;
        let n = self.capture_run(last, cur);
        if n == 0 {
            proof {
                assert(self.score@ =~= old(self).score@.update(cur as int, (old(self).score@[cur as int] + 0) as u16));
            }
            return;
        }
        let lo = last + 1 - n;
        proof {
            lemma_sum_le_total(b, lo as int, last + 1);
        }
        let mut t: u16 = 0;
        let mut i: usize = lo;
        while i <= last
            invariant
                g0.sound(),
                self.board@ == b,
                lo <= i <= last + 1,
                last < 16,
                t == sum_range(b, lo as int, i as int),
                sum_range(b, lo as int, last + 1) <= u16::MAX,
            decreases last + 1 - i,
        {
            proof {
                lemma_sum_split(b, lo as int, i + 1, last + 1);
                lemma_sum_nonneg(b, i + 1, last + 1);
            }
            t = t + self.board[i];
            i += 1;
        }
        let row = self.row_sum_exec(1 - cur);
        if t >= row {
            proof {
                assert(self.score@ =~= old(self).score@.update(cur as int, (old(self).score@[cur as int] + 0) as u16));
            }
            return;
        }
        let mut i: usize = lo;
        while i <= last
            invariant
                g0.sound(),
                g0.board@ == b,
                self.board@.len() == 16,
                self.score == g0.score,
                self.pits == g0.pits,
                self.seeds_per == g0.seeds_per,
                self.current == g0.current,
                self.ring_len == g0.ring_len,
                self.ply == g0.ply,
                self.finished == g0.finished,
                lo <= i <= last + 1,
                last < 16,
                self.board@ == Seq::new(16, |x: int| if lo <= x < i { 0u16 } else { b[x] }),
                total(self.board@) == total(b) - sum_range(b, lo as int, i as int),
            decreases last + 1 - i,
        {
            let ghost before = self.board@;
            self.board[i] = 0;
            proof {
                lemma_sum_update(before, i as int, 0, 0, 16);
                assert(self.board@ =~= Seq::new(16, |x: int| if lo <= x < i + 1 { 0u16 } else { b[x] }));
            }
            i += 1;
        }
        proof {
            lemma_sum_le_total(b, lo as int, last + 1);
        }
        self.score[cur] = self.score[cur] + t;
        proof {
            assert(self.board@ =~= capture_spec(g0.pits as int, b, last as int, cur as int).0);
        }
    }

    /// Some seed sown from the side to move's house `local` reaches the other row.
    fn move_feeds_opponent(&self, local: usize) -> (r: bool)
        requires
            self.sound(),
            local < self.pits,
        ensures
            r == feeds(self.pits as int, self.board@, self.current as int, local as int),
    {
        proof {
            lemma_house(self.pits as int, self.current as int, local as int);
        }
        let cur = self.current as usize;
        let start = cur * self.pits + local;
        let seeds = self.board[start];
        let mut pos = start;
        let mut k: u16 = 0;
        while k < seeds
            invariant
                self.sound(),
                cur == self.current,
                start == cur * self.pits + local,
                start < self.ring_len,
                seeds == self.board@[start as int],
                k <= seeds,
                pos < self.ring_len,
                pos == sow_pos(self.pits as int, start as int, k as int),
                forall|k2: int| 1 <= k2 <= k ==> #[trigger] owner(self.pits as int, sow_pos(self.pits as int, start as int, k2)) == cur,
            decreases seeds - k,
        {
            pos = self.step(pos);
            if pos == start {
                pos = self.step(pos);
            }
            k += 1;
            if pos / self.pits != cur {
                proof {
                    assert(owner(self.pits as int, sow_pos(self.pits as int, start as int, k as int)) != cur);
                }
                return true;
            }
        }
        false
    }

    /// The legal houses of the side to move: the non-empty ones, and among them the
    /// ones that feed a starved opponent; none once the game is over.
    pub fn available_moves(&self) -> (v: Vec<OwareMove>)
        requires
            self.sound(),
        ensures
            v@ == self.moves_spec(),
    {
        if self.finished {
            return Vec::new();
        }
        let cur = self.current as usize;
        let starved = self.row_sum_exec(1 - cur) == 0;
        let mut v: Vec<OwareMove> = Vec::new();
        let mut j: usize = 0;
        while j < self.pits
            invariant
                self.sound(),
                !self.finished,
                cur == self.current,
                starved == (row_sum(self.pits as int, self.board@, 1 - cur) == 0),
                j <= self.pits,
                v@ == moves_upto(self.pits as int, self.board@, cur as int, j as int),
            decreases self.pits - j,
        {
            proof {
                lemma_house(self.pits as int, cur as int, j as int);
            }
            if self.board[cur * self.pits + j] > 0 && (!starved || self.move_feeds_opponent(j)) {
                v.push(OwareMove(j as u8));
            }
            j += 1;
        }
        v
    }

    /// Sweep player `p`'s row into their pile.
    fn sweep_row(&mut self, p: usize)
        requires
            old(self).sound(),
            p < 2,
        ensures
            final(self).board@ == Seq::new(
                16,
                |i: int| if p * old(self).pits <= i < p * old(self).pits + old(self).pits { 0u16 } else { old(self).board@[i] },
            ),
            final(self).score@ == old(self).score@.update(
                p as int,
                (old(self).score@[p as int] + row_sum(old(self).pits as int, old(self).board@, p as int)) as u16,
            ),
            final(self).pits == old(self).pits,
            final(self).seeds_per == old(self).seeds_per,
            final(self).current == old(self).current,
            final(self).ring_len == old(self).ring_len,
            final(self).ply == old(self).ply,
            final(self).finished == old(self).finished,
            final(self).seeds_in_play() == old(self).seeds_in_play(),
    {
        let ghost g0 = *self;
        let ghost b = self.board@;
        let sum = self.row_sum_exec(p);
        proof {
            lemma_house(self.pits as int, p as int, 0);
        }
        let start = p * self.pits;
        proof {
            assert(start + self.pits <= 16) by (nonlinear_arith)
                requires
                    start == p * self.pits,
                    p < 2,
                    self.pits <= 8,
            ;
            lemma_sum_le_total(b, start as int, (start + self.pits) as int);
        }
        let mut i: usize = start;
        while i < start + self.pits
            invariant
                g0.sound(),
                g0.board@ == b,
                self.board@.len() == 16,
                self.score == g0.score,
                self.pits == g0.pits,
                self.seeds_per == g0.seeds_per,
                self.current == g0.current,
                self.ring_len == g0.ring_len,
                self.ply == g0.ply,
                self.finished == g0.finished,
                start == p * g0.pits,
                start + g0.pits <= 16,
                start <= i <= start + g0.pits,
                self.board@ == Seq::new(16, |x: int| if start <= x < i { 0u16 } else { b[x] }),
                total(self.board@) == total(b) - sum_range(b, start as int, i as int),
            decreases start + g0.pits - i,
        {
            let ghost before = self.board@;
            self.board[i] = 0;
            proof {
                lemma_sum_update(before, i as int, 0, 0, 16);
                assert(self.board@ =~= Seq::new(16, |x: int| if start <= x < i + 1 { 0u16 } else { b[x] }));
            }
            i += 1;
        }
        self.score[p] = self.score[p] + sum;
    }

    /// Sweep every seed into its owner's pile.
    fn sweep_own_rows(&mut self)
        requires
            old(self).sound(),
        ensures
            final(self).board@ == sweep_spec(old(self).pits as int, old(self).board@, old(self).score@).0,
            final(self).score@ == sweep_spec(old(self).pits as int, old(self).board@, old(self).score@).1,
            final(self).pits == old(self).pits,
            final(self).seeds_per == old(self).seeds_per,
            final(self).current == old(self).current,
            final(self).ring_len == old(self).ring_len,
            final(self).ply == old(self).ply,
            final(self).finished == old(self).finished,
            final(self).seeds_in_play() == old(self).seeds_in_play(),
    {
        let ghost b = self.board@;
        let ghost s = self.score@;
        let ghost pits = self.pits as int;
        self.sweep_row(0);
        let ghost b1 = self.board@;
        proof {
            lemma_sum_agree(b1, b, pits, 2 * pits);
        }
        self.sweep_row(1);
        proof {
            assert(self.board@ =~= sweep_spec(pits, b, s).0);
            assert(self.score@ =~= sweep_spec(pits, b, s).1);
        }
    }

    /// The end-of-move check: more than half the seeds in one pile ends the game; so
    /// do the ply cap and a side to move without a legal house, after each side
    /// sweeps its own row.
    fn check_end(&mut self)
        requires
            old(self).sound(),
        ensures
            (final(self).board@, final(self).score@, final(self).finished) == end_spec(
                old(self).pits as int,
                old(self).ring_len * old(self).seeds_per,
                old(self).board@,
                old(self).score@,
                old(self).current as int,
                old(self).ply as int,
                old(self).finished,
            ),
            final(self).pits == old(self).pits,
            final(self).seeds_per == old(self).seeds_per,
            final(self).current == old(self).current,
            final(self).ring_len == old(self).ring_len,
            final(self).ply == old(self).ply,
            final(self).seeds_in_play() == old(self).seeds_in_play(),
    {
        let total = self.total_seeds() as u32;
        if (self.score[0] as u32) * 2 > total || (self.score[1] as u32) * 2 > total {
            self.finished = true;
            return;
        }
        if self.ply >= PLY_CAP {
            self.sweep_own_rows();
            self.finished = true;
            return;
        }
        if self.available_moves().len() == 0 {
            self.sweep_own_rows();
            self.finished = true;
        }
    }

    /// Play house `mov` of the side to move: sow, capture, pass the turn, count the
    /// ply and check for the end of the game. Seeds are neither made nor lost.
    pub fn make_move(&mut self, mov: &OwareMove)
        requires
            old(self).wf(),
            (mov.0 as int) < old(self).pits,
            old(self).ply < u32::MAX,
        ensures
            final(self).wf(),
            (final(self).board@, final(self).score@, final(self).finished) == old(self).after(mov.0 as int),
            final(self).current == 1 - old(self).current,
            final(self).ply == old(self).ply + 1,
            final(self).pits == old(self).pits,
            final(self).seeds_per == old(self).seeds_per,
            final(self).ring_len == old(self).ring_len,
            final(self).seeds_in_play() == old(self).seeds_in_play(),
    {
        let cur = self.current as usize;
        let last = self.sow(mov.0 as usize);
        self.apply_capture(last, cur);
        self.ply = self.ply + 1;
        self.current = 1 - self.current;
        self.check_end();
    }
}

impl Oware {
    pub fn is_terminal(&self) -> (b: bool)
        ensures
            b == self.finished,
    {
        self.finished
    }

    pub fn current_player(&self) -> (p: u8)
        ensures
            p == self.current,
    {
        self.current
    }

    pub fn score_of(&self, player: u8) -> (s: u16)
        requires
            player < 2,
        ensures
            s == self.score@[player as int],
    {
        self.score[player as usize]
    }

    /// The side with the larger pile once the game is over; none for equal piles or
    /// while the game runs.
    pub open spec fn winner_spec(&self) -> Option<u8> {
        if !self.finished || self.score@[0] == self.score@[1] {
            None
        } else if self.score@[0] > self.score@[1] {
            Some(0u8)
        } else {
            Some(1u8)
        }
    }

    pub fn winner(&self) -> (w: Option<u8>)
        ensures
            w == self.winner_spec(),
    {
        if !self.finished {
            return None;
        }
        if self.score[0] > self.score[1] {
            Some(0)
        } else if self.score[0] < self.score[1] {
            Some(1)
        } else {
            None
        }
    }

    /// Once over: a win for the side to move with the larger pile, a loss with the
    /// smaller one, a draw for equal piles.
    pub open spec fn term_spec(&self) -> Option<Outcome> {
        if !self.finished {
            None
        } else {
            let me = self.score@[self.current as int];
            let them = self.score@[1 - self.current];
            Some(if me > them { Outcome::Win } else if me < them { Outcome::Loss } else { Outcome::Draw })
        }
    }

    pub fn terminal_value(&self) -> (t: Option<Outcome>)
        requires
            self.current < 2,
        ensures
            t == self.term_spec(),
    {
        if !self.finished {
            return None;
        }
        let cur = self.current as usize;
        let me = self.score[cur];
        let them = self.score[1 - cur];
        Some(if me > them { Outcome::Win } else if me < them { Outcome::Loss } else { Outcome::Draw })
    }
}

/// The heuristic value of a position for each player.
#[derive(Clone, Copy, Debug)]
pub struct OwareStateEval {
    pub scores: [i32; 2],
}

impl Oware {
    /// Twice the pile (seeds locked away) plus the seeds still on the own row.
    pub open spec fn eval_score(&self, p: int) -> int {
        2 * self.score@[p] + row_sum(self.pits as int, self.board@, p)
    }

    pub fn compute(&self) -> (e: OwareStateEval)
        requires
            self.sound(),
        ensures
            forall|p: int| 0 <= p < 2 ==> #[trigger] e.scores@[p] == self.eval_score(p),
    {
        let mut scores = [0i32; 2];
        let mut p: usize = 0;
        while p < 2
            invariant
                self.sound(),
                p <= 2,
                forall|q: int| 0 <= q < p ==> #[trigger] scores@[q] == self.eval_score(q),
            decreases 2 - p,
        {
            let row = self.row_sum_exec(p);
            scores[p] = self.score[p] as i32 * 2 + row as i32;
            p += 1;
        }
        OwareStateEval { scores }
    }
}

/// The value of a position for `player`: their heuristic score less the other's.
pub fn eval_for(e: &OwareStateEval, player: u8) -> (v: i64)
    requires
        player < 2,
        i32::MIN <= e.scores@[player as int] - e.scores@[1 - player] <= i32::MAX,
    ensures
        v == e.scores@[player as int] - e.scores@[1 - player],
{
    let p = player as usize;
    (e.scores[p] - e.scores[1 - p]) as i64
}

/// The table of a new game as the front end asks for it: the house count clamped to
/// 4..=8, the seed count read as a 16-bit number and clamped to 3..=6.
pub fn settings(pits: u32, seeds: u32) -> (r: (usize, u16))
    ensures
        r.0 == (if pits < 4 { 4 } else if pits > 8 { 8 } else { pits }),
        r.1 == (if (seeds as u16) < 3 { 3 } else if (seeds as u16) > 6 { 6 } else { seeds as u16 }),
{
    let p: usize = if pits < 4 { 4 } else if pits > 8 { 8 } else { pits as usize };
    let s = seeds as u16;
    let s = if s < 3 { 3 } else if s > 6 { 6 } else { s };
    (p, s)
}

/// The seeds of the first `n` ring cells in ring order, joined by commas.
pub open spec fn cells_text(b: Seq<u16>, n: int) -> Seq<char> {
    join_nums(Seq::new(n as nat, |i: int| b[i] as int), ',')
}

impl Oware {
    /// The seeds of every house in ring order, then `|`, then the two piles.
    pub fn board_string(&self) -> (s: String)
        requires
            self.sound(),
        ensures
            s@ == cells_text(self.board@, self.ring_len as int) + seq!['|'] + cells_text(self.score@, 2),
    {
        let mut cells: Vec<u16> = Vec::new();
        let mut i: usize = 0;
        while i < self.ring_len
            invariant
                self.sound(),
                i <= self.ring_len,
                cells@.len() == i,
                forall|j: int| 0 <= j < i ==> #[trigger] cells@[j] == self.board@[j],
            decreases self.ring_len - i,
        {
            cells.push(self.board[i]);
            i += 1;
        }
        let mut s = String::new();
        push_joined(&mut s, &cells, ',');
        assert(u16s(cells@) =~= Seq::new(self.ring_len as nat, |i: int| self.board@[i] as int));
        push_char(&mut s, '|');
        let piles = self.scores_string();
        push_str(&mut s, piles.as_str());
        s
    }

    /// The two piles, joined by a comma.
    pub fn scores_string(&self) -> (s: String)
        ensures
            s@ == cells_text(self.score@, 2),
    {
        let mut v: Vec<u16> = Vec::new();
        v.push(self.score[0]);
        v.push(self.score[1]);
        let mut s = String::new();
        push_joined(&mut s, &v, ',');
        assert(u16s(v@) =~= Seq::new(2, |i: int| self.score@[i] as int));
        s
    }

    /// The legal houses of the side to move, joined by commas.
    pub fn legal_moves_string(&self) -> (s: String)
        requires
            self.sound(),
        ensures
            s@ == join_nums(Seq::new(self.moves_spec().len(), |i: int| self.moves_spec()[i].0 as int), ','),
    {
        let moves = self.available_moves();
        let mut cells: Vec<u16> = Vec::new();
        let mut i: usize = 0;
        while i < moves.len()
            invariant
                i <= moves@.len(),
                cells@.len() == i,
                forall|j: int| 0 <= j < i ==> #[trigger] cells@[j] == moves@[j].0,
            decreases moves@.len() - i,
        {
            cells.push(moves[i].0 as u16);
            i += 1;
        }
        let mut s = String::new();
        push_joined(&mut s, &cells, ',');
        assert(u16s(cells@) =~= Seq::new(self.moves_spec().len(), |i: int| self.moves_spec()[i].0 as int));
        s
    }

    /// Empty while the game runs; the winner counted from 1, or `Draw`, once over.
    pub fn result_string(&self) -> (s: String)
        ensures
            !self.finished ==> s@ == Seq::<char>::empty(),
            self.finished ==> s@ == (match self.winner_spec() {
                Some(p) => dec((p + 1) as nat),
                None => seq!['D', 'r', 'a', 'w'],
            }),
    {
        let mut s = String::new();
        if !self.finished {
            return s;
        }
        match self.winner() {
            Some(p) => {
                push_dec(&mut s, p as u64 + 1);
            },
            None => {
                push_str(&mut s, "Draw");
                proof {
                    reveal_strlit("Draw");
                }
            },
        }
        s
    }

    /// Play the house that `mov` names if it is a legal house of the side to move;
    /// false, leaving the game unchanged, otherwise.
    pub fn apply_text(&mut self, mov: &str) -> (ok: bool)
        requires
            old(self).wf(),
        ensures
            final(self).wf(),
            ok == (parse_uint(mov@, 255) matches Some(v) && v < old(self).pits && old(self).moves_spec().contains(
                OwareMove(v as u8),
            )),
            !ok ==> *final(self) == *old(self),
            ok ==> (final(self).board@, final(self).score@, final(self).finished) == old(self).after(
                parse_uint(mov@, 255)->0,
            ) && final(self).current == 1 - old(self).current,
            ok ==> final(self).ply == old(self).ply + 1 && final(self).pits == old(self).pits && final(self).seeds_per == old(self).seeds_per
                && final(self).ring_len == old(self).ring_len,
    {
        let cs = chars_of(mov);
        proof {
            assert(cs@.subrange(0, cs@.len() as int) =~= mov@);
        }
        let v = match parse_uint_range(&cs, 0, cs.len(), 255) {
            Some(v) => v,
            None => {
                return false;
            },
        };
        if v as usize >= self.pits {
            return false;
        }
        let m = OwareMove(v as u8);
        let moves = self.available_moves();
        let mut found = false;
        let mut i: usize = 0;
        while i < moves.len()
            invariant
                i <= moves@.len(),
                found == exists|j: int| 0 <= j < i && moves@[j] == m,
            decreases moves@.len() - i,
        {
            if moves[i] == m {
                found = true;
            }
            i += 1;
        }
        if !found {
            return false;
        }
        self.make_move(&m);
        true
    }
}

proof fn lemma_sow_pos_on_ring(pits: int, start: int, k: int)
    requires
        1 <= pits <= 8,
        0 <= start < 2 * pits,
    ensures
        0 <= sow_pos(pits, start, k) < 2 * pits,
        k > 0 ==> sow_pos(pits, start, k) != start,
    decreases k,
{
    if k > 0 {
        lemma_sow_pos_on_ring(pits, start, k - 1);
    }
}

/// Sowing never drops a seed back into the house it was lifted from: however many
/// seeds are sown, that house ends empty, and the board keeps its size.
pub proof fn lemma_sowing_skips_origin(pits: int, b: Seq<u16>, start: int, k: int)
    requires
        1 <= pits <= 8,
        b.len() == 16,
        0 <= start < 2 * pits,
    ensures
        sow_spec(pits, b, start, k).len() == 16,
        sow_spec(pits, b, start, k)[start] == 0,
    decreases k,
{
    if k > 0 {
        lemma_sowing_skips_origin(pits, b, start, k - 1);
        lemma_sow_pos_on_ring(pits, start, k);
    }
}

/// The grand-slam rule: a capture never takes every seed of the opponent's row. What
/// it takes leaves that row, the mover's row keeps its seeds, and a move that takes
/// nothing leaves the board as it was.
pub proof fn lemma_capture_spares_a_seed(pits: int, b: Seq<u16>, last: int, cur: int)
    requires
        1 <= pits <= 8,
        b.len() == 16,
        0 <= last < 2 * pits,
        0 <= cur < 2,
    ensures
        capture_spec(pits, b, last, cur).1 == 0 ==> capture_spec(pits, b, last, cur).0 == b,
        capture_spec(pits, b, last, cur).1 > 0 ==> row_sum(pits, capture_spec(pits, b, last, cur).0, 1 - cur) > 0,
        row_sum(pits, capture_spec(pits, b, last, cur).0, 1 - cur) == row_sum(pits, b, 1 - cur) - capture_spec(
            pits,
            b,
            last,
            cur,
        ).1,
        row_sum(pits, capture_spec(pits, b, last, cur).0, cur) == row_sum(pits, b, cur),
{
    let opp = 1 - cur;
    let lo = opp * pits;
    let hi = lo + pits;
    let mlo = cur * pits;
    if cur == 0 {
        assert(lo == pits && mlo == 0) by (nonlinear_arith)
            requires
                cur == 0,
                lo == (1 - cur) * pits,
                mlo == cur * pits,
        ;
    } else {
        assert(lo == 0 && mlo == pits) by (nonlinear_arith)
            requires
                cur == 1,
                lo == (1 - cur) * pits,
                mlo == cur * pits,
        ;
    }
    let n = run_len(b, last, lo);
    let a = last - n + 1;
    lemma_run_len_bounds(b, last, lo);
    if owner(pits, last) == opp && n > 0 && sum_range(b, a, last + 1) < row_sum(pits, b, opp) {
        let (b2, t) = capture_spec(pits, b, last, cur);
        let z = Seq::new(16, |j: int| 0u16);
        lemma_owner(pits, last);
        assert(lo <= a && last + 1 <= hi);
        assert(b[last] == 2 || b[last] == 3);
        lemma_sum_nonneg(b, a, last);
        assert(t > 0);
        lemma_sum_split(b, lo, a, hi);
        lemma_sum_split(b, a, last + 1, hi);
        lemma_sum_split(b2, lo, a, hi);
        lemma_sum_split(b2, a, last + 1, hi);
        lemma_sum_agree(b2, b, lo, a);
        lemma_sum_agree(b2, b, last + 1, hi);
        assert forall|i: int| a <= i < last + 1 implies b2[i] == z[i] by {}
        lemma_sum_agree(b2, z, a, last + 1);
        lemma_zero_sum(a, last + 1);
        lemma_sum_agree(b2, b, mlo, mlo + pits);
    }
}

/// Every house in the moves of the first `n` houses is below `n` and playable.
proof fn lemma_moves_upto_playable(pits: int, b: Seq<u16>, cur: int, n: int, m: OwareMove)
    requires
        0 <= n <= 8,
        moves_upto(pits, b, cur, n).contains(m),
    ensures
        (m.0 as int) < n,
        playable(pits, b, cur, m.0 as int),
    decreases n,
{
    if n > 0 {
        let prev = moves_upto(pits, b, cur, n - 1);
        if prev.contains(m) {
            lemma_moves_upto_playable(pits, b, cur, n - 1, m);
        } else {
            let i = choose|i: int| 0 <= i < moves_upto(pits, b, cur, n).len() && moves_upto(pits, b, cur, n)[i] == m;
            if i < prev.len() {
                assert(prev[i] == m);
            }
        }
    }
}

/// The starvation rule: while the opponent's row is empty, every legal house is a
/// non-empty one from which some seed reaches the opponent.
pub proof fn lemma_starved_opponent_is_fed(g: Oware, m: OwareMove)
    requires
        g.sound(),
        g.moves_spec().contains(m),
        row_sum(g.pits as int, g.board@, 1 - g.current) == 0,
    ensures
        (m.0 as int) < g.pits,
        g.board@[g.current * g.pits + m.0] > 0,
        feeds(g.pits as int, g.board@, g.current as int, m.0 as int),
{
    lemma_moves_upto_playable(g.pits as int, g.board@, g.current as int, g.pits as int, m);
}

/// The verdict for the side to move agrees with the winner: a win exactly when the
/// side to move is the winner, a draw exactly when there is none.
pub proof fn lemma_verdict_matches_winner(g: Oware)
    requires
        g.finished,
        g.current < 2,
    ensures
        (g.term_spec() == Some(Outcome::Win)) == (g.winner_spec() == Some(g.current)),
        (g.term_spec() == Some(Outcome::Draw)) == (g.winner_spec() is None),
        (g.term_spec() == Some(Outcome::Loss)) == (g.winner_spec() == Some((1 - g.current) as u8)),
{
}

} // verus!
