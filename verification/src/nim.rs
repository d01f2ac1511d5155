//! Multi-heap Nim: the mover takes between 1 and `max_take` stones from one heap
//! (`max_take == 0`: any number). Taking the last stone wins in normal play and
//! loses in misère play.
use vstd::prelude::*;
use crate::outcome::Outcome;
use crate::text::{
    push_char, push_str, push_joined, join_nums, u16s, chars_of, parse_u16_list, parse_list,
    lemma_parse_list_join,
};

verus! {

#[derive(Clone, Copy, Debug, PartialEq, Eq, Structural)]
pub enum Player {
    P1,
    P2,
}

pub open spec fn other_spec(p: Player) -> Player {
    match p {
        Player::P1 => Player::P2,
        Player::P2 => Player::P1,
    }
}

pub fn other(p: Player) -> (q: Player)
    ensures
        q == other_spec(p),
{
    match p {
        Player::P1 => Player::P2,
        Player::P2 => Player::P1,
    }
}

/// Take `count` stones from heap `heap`.
#[derive(Clone, Copy, Debug, PartialEq, Eq, Structural)]
pub struct NimMove {
    pub heap: u8,
    pub count: u8,
}

#[derive(Clone, Debug)]
pub struct Nim {
    pub heaps: Vec<u8>,
    /// 0: unbounded.
    pub max_take: u8,
    pub misere: bool,
    pub current: Player,
}

pub open spec fn total_spec(h: Seq<u8>) -> int
    decreases h.len(),
{
    if h.len() == 0 {
        0
    } else {
        total_spec(h.drop_last()) + h.last()
    }
}

proof fn lemma_total_bounds(h: Seq<u8>)
    ensures
        0 <= total_spec(h) <= 255 * h.len(),
        total_spec(h) == 0 <==> forall|i: int| 0 <= i < h.len() ==> #[trigger] h[i] == 0,
    decreases h.len(),
{
    if h.len() > 0 {
        lemma_total_bounds(h.drop_last());
        if total_spec(h) == 0 {
            assert forall|i: int| 0 <= i < h.len() implies #[trigger] h[i] == 0 by {
                if i < h.len() - 1 {
                    assert(h.drop_last()[i] == h[i]);
                }
            }
        } else {
            if forall|i: int| 0 <= i < h.len() ==> #[trigger] h[i] == 0 {
                assert forall|i: int| 0 <= i < h.drop_last().len() implies #[trigger] h.drop_last()[i] == 0 by {
                    assert(h[i] == 0);
                }
                assert(h[h.len() - 1] == 0);
            }
        }
    }
}

/// The starting heaps: the first is `stones`, each next one 2 smaller, at least 1.
pub open spec fn start_heap(stones: int, i: int) -> int {
    if i == 0 {
        stones
    } else if stones - 2 * i >= 1 {
        stones - 2 * i
    } else {
        1
    }
}

pub fn build_heaps(stones: u8, heaps: u8) -> (hs: Vec<u8>)
    ensures
        hs@.len() == heaps,
        forall|i: int| 0 <= i < heaps ==> #[trigger] hs@[i] as int == start_heap(stones as int, i),
{
    let mut hs: Vec<u8> = Vec::new();
    let mut v = stones;
    let mut k: u8 = 0;
    while k < heaps
        invariant
            k <= heaps,
            hs@.len() == k,
            v as int == start_heap(stones as int, k as int),
            forall|i: int| 0 <= i < k ==> #[trigger] hs@[i] as int == start_heap(stones as int, i),
        decreases heaps - k,
    {
        hs.push(v);
        v = if v > 2 { v - 2 } else { 1 };
        k += 1;
    }
    hs
}

impl Nim {
    pub open spec fn wf(&self) -> bool {
        self.heaps@.len() <= 256
    }

    pub open spec fn total(&self) -> int {
        total_spec(self.heaps@)
    }

    /// How many stones may be taken from a heap of `h`.
    pub open spec fn cap_spec(&self, h: u8) -> u8 {
        if self.max_take == 0 || h <= self.max_take {
            h
        } else {
            self.max_take
        }
    }

    /// A game set up from the requested sizes: the first heap clamped to 1..=60,
    /// 1..=8 heaps, `max_take` 0 or clamped to 1..=10, misère when `misere` is
    /// non-zero; P1 to move.
    pub fn new(stones: u32, heaps: u32, max_take: u32, misere: u32) -> (g: Self)
        ensures
            g.wf(),
            g.heaps@.len() == (if heaps < 1 { 1 } else if heaps > 8 { 8 } else { heaps }),
            forall|i: int| 0 <= i < g.heaps@.len() ==> #[trigger] g.heaps@[i] as int == start_heap(
                if stones < 1 { 1 } else if stones > 60 { 60 } else { stones as int },
                i,
            ),
            g.max_take == (if max_take == 0 { 0 } else if max_take > 10 { 10 } else { max_take }),
            g.misere == (misere != 0),
            g.current == Player::P1,
    {
        let stones: u8 = if stones < 1 { 1 } else if stones > 60 { 60 } else { stones as u8 };
        let heaps: u8 = if heaps < 1 { 1 } else if heaps > 8 { 8 } else { heaps as u8 };
        let max_take: u8 = if max_take == 0 { 0 } else if max_take > 10 { 10 } else { max_take as u8 };
        Nim { heaps: build_heaps(stones, heaps), max_take, misere: misere != 0, current: Player::P1 }
    }

    pub fn total_stones(&self) -> (t: u32)
        requires
            self.wf(),
        ensures
            t == self.total(),
    {
        let mut t: u32 = 0;
        let mut i: usize = 0;
        while i < self.heaps.len()
            invariant
                self.wf(),
                i <= self.heaps@.len(),
                t == total_spec(self.heaps@.take(i as int)),
            decreases self.heaps@.len() - i,
        {
            proof {
                lemma_total_bounds(self.heaps@.take(i as int));
                assert(self.heaps@.take(i + 1).drop_last() =~= self.heaps@.take(i as int));
            }
            t = t + self.heaps[i] as u32;
            i += 1;
        }
        assert(self.heaps@.take(i as int) =~= self.heaps@);
        t
    }

    pub fn cap(&self, h: u8) -> (c: u8)
        ensures
            c == self.cap_spec(h),
    {
        if self.max_take == 0 || h <= self.max_take {
            h
        } else {
            self.max_take
        }
    }

    /// The moves on heaps `0..n`: heap by heap, counts from 1 up to the cap.
    pub open spec fn moves_upto(&self, n: int) -> Seq<NimMove>
        decreases n,
    {
        if n <= 0 {
            seq![]
        } else {
            self.moves_upto(n - 1) + Seq::new(
                self.cap_spec(self.heaps@[n - 1]) as nat,
                |c: int| NimMove { heap: (n - 1) as u8, count: (c + 1) as u8 },
            )
        }
    }

    pub open spec fn moves_spec(&self) -> Seq<NimMove> {
        self.moves_upto(self.heaps@.len() as int)
    }

    pub fn available_moves(&self) -> (v: Vec<NimMove>)
        requires
            self.wf(),
        ensures
            v@ == self.moves_spec(),
    {
        let mut v: Vec<NimMove> = Vec::new();
        let mut i: usize = 0;
        while i < self.heaps.len()
            invariant
                self.wf(),
                i <= self.heaps@.len(),
                v@ == self.moves_upto(i as int),
            decreases self.heaps@.len() - i,
        {
            let c = self.cap(self.heaps[i]);
            let ghost base = v@;
            let mut k: u16 = 1;
            while k <= c as u16
                invariant
                    self.wf(),
                    i < self.heaps@.len(),
                    c == self.cap_spec(self.heaps@[i as int]),
                    1 <= k <= c as int + 1,
                    v@ == base + Seq::new((k - 1) as nat, |j: int| NimMove { heap: i as u8, count: (j + 1) as u8 }),
                decreases c as int + 1 - k,
            {
                v.push(NimMove { heap: i as u8, count: k as u8 });
                proof {
                    assert(v@ =~= base + Seq::new(k as nat, |j: int| NimMove { heap: i as u8, count: (j + 1) as u8 }));
                }
                k += 1;
            }
            proof {
                assert(v@ =~= self.moves_upto(i + 1));
            }
            i += 1;
        }
        v
    }

    pub fn current_player(&self) -> (p: Player)
        ensures
            p == self.current,
    {
        self.current
    }

    /// Take the stones; the other player moves next.
    pub fn make_move(&mut self, m: &NimMove)
        requires
            (m.heap as int) < old(self).heaps@.len(),
            m.count <= old(self).heaps@[m.heap as int],
        ensures
            final(self).heaps@ == old(self).heaps@.update(m.heap as int, (old(self).heaps@[m.heap as int] - m.count) as u8),
            final(self).current == other_spec(old(self).current),
            final(self).max_take == old(self).max_take,
            final(self).misere == old(self).misere,
    {
        let h = m.heap as usize;
        let left = self.heaps[h] - m.count;
        self.heaps.set(h, left);
        self.current = other(self.current);
    }

    /// Once the heaps are empty: the player to move loses in normal play and wins in
    /// misère play.
    pub open spec fn term_spec(&self) -> Option<Outcome> {
        if self.total() == 0 {
            Some(if self.misere { Outcome::Win } else { Outcome::Loss })
        } else {
            None
        }
    }

    pub fn terminal_value(&self) -> (t: Option<Outcome>)
        requires
            self.wf(),
        ensures
            t == self.term_spec(),
    {
        if self.total_stones() == 0 {
            Some(if self.misere { Outcome::Win } else { Outcome::Loss })
        } else {
            None
        }
    }

    /// The winner of a finished game: the taker of the last stone in normal play,
    /// the other player in misère play.
    pub open spec fn winner_spec(&self) -> Option<Player> {
        if self.total() == 0 {
            Some(if self.misere { self.current } else { other_spec(self.current) })
        } else {
            None
        }
    }

    pub fn winner(&self) -> (w: Option<Player>)
        requires
            self.wf(),
        ensures
            w == self.winner_spec(),
    {
        if self.total_stones() == 0 {
            Some(if self.misere { self.current } else { other(self.current) })
        } else {
            None
        }
    }
}

/// The value of a known winner for `player`: 100 for a win, -100 for a loss, 0
/// while undecided.
pub fn eval_for(winner: Option<Player>, player: Player) -> (e: i64)
    ensures
        e == (match winner {
            Some(w) => if w == player { 100int } else { -100int },
            None => 0int,
        }),
{
    match winner {
        Some(w) => if w == player { 100 } else { -100 },
        None => 0,
    }
}

/// Text of a move: `heap-count`.
pub open spec fn move_text(m: NimMove) -> Seq<char> {
    join_nums(seq![m.heap as int, m.count as int], '-')
}

pub open spec fn moves_text(ms: Seq<NimMove>) -> Seq<char>
    decreases ms.len(),
{
    if ms.len() == 0 {
        seq![]
    } else if ms.len() == 1 {
        move_text(ms[0])
    } else {
        moves_text(ms.drop_last()) + seq![','] + move_text(ms.last())
    }
}

/// The move that `cs` names: two numbers of at most 255 split at the one `-`.
pub open spec fn parse_move_spec(cs: Seq<char>) -> Option<NimMove> {
    match parse_list(cs, '-', 65535) {
        Some(v) => if v.len() == 2 && v[0] <= 255 && v[1] <= 255 {
            Some(NimMove { heap: v[0] as u8, count: v[1] as u8 })
        } else {
            None
        },
        None => None,
    }
}

impl NimMove {
    pub fn encode(&self) -> (s: String)
        ensures
            s@ == move_text(*self),
    {
        let v: Vec<u16> = vec![self.heap as u16, self.count as u16];
        let mut s = String::new();
        push_joined(&mut s, &v, '-');
        assert(u16s(v@) =~= seq![self.heap as int, self.count as int]);
        s
    }
}

pub fn parse_nim_move(mov: &str) -> (r: Option<NimMove>)
    ensures
        r == parse_move_spec(mov@),
{
    let cs = chars_of(mov);
    match parse_u16_list(&cs, '-') {
        Some(p) => if p.len() == 2 && p[0] <= 255 && p[1] <= 255 {
            assert(u16s(p@)[0] == p@[0] as int && u16s(p@)[1] == p@[1] as int);
            Some(NimMove { heap: p[0] as u8, count: p[1] as u8 })
        } else {
            proof {
                if p@.len() == 2 {
                    assert(u16s(p@)[0] == p@[0] as int && u16s(p@)[1] == p@[1] as int);
                }
            }
            None
        },
        None => None,
    }
}

/// The text of a move reads back as that move.
pub proof fn lemma_move_text_round_trip(m: NimMove)
    ensures
        parse_move_spec(move_text(m)) == Some(m),
{
    lemma_parse_list_join(seq![m.heap as int, m.count as int], '-', 65535);
}

impl Nim {
    /// The heaps joined by commas.
    pub fn board_string(&self) -> (s: String)
        ensures
            s@ == join_nums(Seq::new(self.heaps@.len(), |i: int| self.heaps@[i] as int), ','),
    {
        let mut v: Vec<u16> = Vec::new();
        let mut i: usize = 0;
        while i < self.heaps.len()
            invariant
                i <= self.heaps@.len(),
                v@.len() == i,
                forall|j: int| 0 <= j < i ==> #[trigger] v@[j] == self.heaps@[j] as u16,
            decreases self.heaps@.len() - i,
        {
            v.push(self.heaps[i] as u16);
            i += 1;
        }
        let mut s = String::new();
        push_joined(&mut s, &v, ',');
        assert(u16s(v@) =~= Seq::new(self.heaps@.len(), |i: int| self.heaps@[i] as int));
        s
    }

    /// `P1` or `P2`.
    pub fn current_player_text(&self) -> (s: String)
        ensures
            s@ == (match self.current {
                Player::P1 => seq!['P', '1'],
                Player::P2 => seq!['P', '2'],
            }),
    {
        let mut s = String::new();
        push_char(&mut s, 'P');
        push_char(&mut s, if self.current == Player::P1 { '1' } else { '2' });
        assert(s@ =~= (match self.current {
            Player::P1 => seq!['P', '1'],
            Player::P2 => seq!['P', '2'],
        }));
        s
    }

    pub fn is_terminal(&self) -> (b: bool)
        requires
            self.wf(),
        ensures
            b == (self.total() == 0),
    {
        self.total_stones() == 0
    }

    /// The winning seat, `1` or `2`, once the heaps are empty; empty before.
    pub fn result_string(&self) -> (s: String)
        requires
            self.wf(),
        ensures
            self.winner_spec() == Some(Player::P1) ==> s@ == seq!['1'],
            self.winner_spec() == Some(Player::P2) ==> s@ == seq!['2'],
            self.winner_spec() is None ==> s@ == Seq::<char>::empty(),
    {
        let mut s = String::new();
        match self.winner() {
            Some(Player::P1) => push_char(&mut s, '1'),
            Some(Player::P2) => push_char(&mut s, '2'),
            None => {},
        }
        assert(s@ =~= s@);
        s
    }

    pub fn legal_moves_string(&self) -> (s: String)
        requires
            self.wf(),
        ensures
            s@ == moves_text(self.moves_spec()),
    {
        let moves = self.available_moves();
        let mut s = String::new();
        let mut i: usize = 0;
        while i < moves.len()
            invariant
                i <= moves@.len(),
                s@ == moves_text(moves@.take(i as int)),
            decreases moves@.len() - i,
        {
            if i > 0 {
                push_char(&mut s, ',');
            }
            let t = moves[i].encode();
            push_str(&mut s, t.as_str());
            proof {
                assert(moves@.take(i + 1).drop_last() =~= moves@.take(i as int));
            }
            i += 1;
        }
        assert(moves@.take(moves@.len() as int) =~= moves@);
        s
    }

    proof fn lemma_moves_legal(&self, n: int, m: NimMove)
        requires
            0 <= n <= self.heaps@.len(),
            self.heaps@.len() <= 256,
            self.moves_upto(n).contains(m),
        ensures
            (m.heap as int) < n,
            1 <= m.count <= self.heaps@[m.heap as int],
        decreases n,
    {
        if n > 0 {
            let a = self.moves_upto(n - 1);
            if a.contains(m) {
                self.lemma_moves_legal(n - 1, m);
            } else {
                let k = choose|k: int| 0 <= k < self.moves_upto(n).len() && self.moves_upto(n)[k] == m;
                assert(self.moves_upto(n)[k] == self.moves_upto(n)[k]);
                assert(k >= a.len());
            }
        }
    }

    /// Play the move that `mov` names if it is legal; false, leaving the game
    /// unchanged, otherwise.
    pub fn apply_text(&mut self, mov: &str) -> (ok: bool)
        requires
            old(self).wf(),
        ensures
            final(self).wf(),
            ok == (parse_move_spec(mov@) matches Some(m) && old(self).moves_spec().contains(m)),
            !ok ==> *final(self) == *old(self),
            ok ==> final(self).heaps@ == old(self).heaps@.update(
                parse_move_spec(mov@)->0.heap as int,
                (old(self).heaps@[parse_move_spec(mov@)->0.heap as int] - parse_move_spec(mov@)->0.count) as u8,
            ) && final(self).current == other_spec(old(self).current),
            ok ==> final(self).max_take == old(self).max_take && final(self).misere == old(self).misere,
    {
        let m = match parse_nim_move(mov) {
            Some(m) => m,
            None => {
                return false;
            },
        };
        let moves = self.available_moves();
        let mut found = false;
        let mut i: usize = 0;
        while i < moves.len()
            invariant
                i <= moves@.len(),
                found == exists|j: int| 0 <= j < i && moves@[j] == m,
            decreases moves@.len() - i,
        {
            if moves[i] == m {
                found = true;
            }
            i += 1;
        }
        if !found {
            return false;
        }
        proof {
            self.lemma_moves_legal(self.heaps@.len() as int, m);
        }
        self.make_move(&m);
        true
    }
}

/// Single-heap play with takes of 1..=k: some take of at most `c` stones leaves the
/// opponent a heap on which the player to move loses.
pub open spec fn wins_by_some_take(n: nat, k: nat, c: nat) -> bool
    decreases n, c,
{
    if c == 0 {
        false
    } else {
        (c <= n && !mover_wins((n - c) as nat, k)) || wins_by_some_take(n, k, (c - 1) as nat)
    }
}

/// Single-heap normal play with takes of 1..=k: the player to move wins exactly
/// when some take leaves the opponent a losing heap (an empty heap is lost).
pub open spec fn mover_wins(n: nat, k: nat) -> bool
    decreases n, k + 1,
{
    n > 0 && wins_by_some_take(n, k, k)
}

proof fn lemma_takes(n: nat, k: nat, c: nat)
    requires
        k >= 1,
        c <= k,
    ensures
        wins_by_some_take(n, k, c) <==> exists|t: nat|
            1 <= t <= c && t <= n && #[trigger] (((n - t) as nat) % (k + 1)) == 0,
    decreases n, c,
{
    if c > 0 {
        if c <= n {
            lemma_single_heap_verdict((n - c) as nat, k);
        }
        lemma_takes(n, k, (c - 1) as nat);
        if exists|t: nat| 1 <= t <= c && t <= n && #[trigger] (((n - t) as nat) % (k + 1)) == 0 {
            let t = choose|t: nat| 1 <= t <= c && t <= n && #[trigger] (((n - t) as nat) % (k + 1)) == 0;
            if t < c {
                assert(1 <= t <= (c - 1) as nat);
            }
        }
    }
}

/// In normal play on a single heap with takes of 1..=k, the player to move wins
/// exactly when the heap is not a multiple of k + 1.
pub proof fn lemma_single_heap_verdict(n: nat, k: nat)
    requires
        k >= 1,
    ensures
        mover_wins(n, k) <==> n % (k + 1) != 0,
    decreases n, k + 1,
{
    if n > 0 {
        lemma_takes(n, k, k);
        let m = (k + 1) as int;
        if n % (k + 1) != 0 {
            let c = (n % (k + 1)) as nat;
            vstd::arithmetic::div_mod::lemma_fundamental_div_mod(n as int, m);
            vstd::arithmetic::div_mod::lemma_mod_pos_bound(n as int, m);
            vstd::arithmetic::div_mod::lemma_div_pos_is_pos(n as int, m);
            assert(m * (n as int / m) >= 0) by (nonlinear_arith)
                requires
                    n as int / m >= 0,
                    m > 0,
            ;
            assert(1 <= c <= k && c <= n);
            assert(((n - c) as nat) % (k + 1) == 0) by {
                vstd::arithmetic::div_mod::lemma_mod_multiples_basic(n as int / m, m);
                assert((n as int / m) * m == m * (n as int / m)) by (nonlinear_arith);
            }
            assert(wins_by_some_take(n, k, k));
        } else {
            assert forall|t: nat| 1 <= t <= k && t <= n implies #[trigger] (((n - t) as nat) % (k + 1)) != 0 by {
                let ni = n as int;
                let ci = t as int;
                let r = ni - ci;
                vstd::arithmetic::div_mod::lemma_fundamental_div_mod(ni, m);
                vstd::arithmetic::div_mod::lemma_fundamental_div_mod(r, m);
                if r % m == 0 {
                    let d = ni / m - r / m;
                    assert(ci == d * m) by (nonlinear_arith)
                        requires
                            ni == m * (ni / m),
                            r == m * (r / m),
                            r == ni - ci,
                            d == ni / m - r / m,
                    ;
                    assert(d >= 1 ==> ci >= m) by (nonlinear_arith)
                        requires
                            ci == d * m,
                            m >= 2,
                    ;
                    assert(d <= 0 ==> ci <= 0) by (nonlinear_arith)
                        requires
                            ci == d * m,
                            m >= 2,
                    ;
                }
            }
            assert(!wins_by_some_take(n, k, k));
        }
    } else {
        vstd::arithmetic::div_mod::lemma_small_mod(0, (k + 1) as nat);
    }
}

} // verus!
