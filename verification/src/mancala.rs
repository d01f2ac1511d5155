//! Generalised Mancala (Kalah) for two or four players. Each player owns `pits`
//! consecutive pits followed by a store on one ring; stones are sown one per cell
//! counterclockwise, skipping the other players' stores. The last stone in the own
//! store earns another turn; the last stone in an own empty pit captures the
//! opposite pit. When some row empties, every row is swept into its owner's store.
use vstd::prelude::*;
use crate::outcome::Outcome;
use crate::text::{push_char, push_str, push_dec, dec, join_nums, chars_of, parse_uint, parse_uint_range};

verus! {

pub const MAX_PITS: usize = 8;
pub const MAX_PLAYERS: usize = 4;
/// Cells of the largest ring: four players with eight pits and a store each.
pub const MAX_RING: usize = 36;

#[derive(Clone, Debug)]
pub struct Mancala {
    pub board: [u8; 36],
    pub pits: usize,
    pub num_players: usize,
    pub current: u8,
    pub ring_len: usize,
}

/// Play pit `0` of the side to move's row.
#[derive(Clone, Copy, Debug, PartialEq, Eq, Structural)]
pub struct MancalaMove(pub u8);

/// Stones in the first `n` cells.
pub open spec fn total_upto(b: Seq<u8>, n: int) -> int
    decreases n,
{
    if n <= 0 {
        0
    } else {
        total_upto(b, n - 1) + b[n - 1]
    }
}

/// Stones on the whole board.
pub open spec fn total(b: Seq<u8>) -> int {
    total_upto(b, b.len() as int)
}

proof fn lemma_total_update(b: Seq<u8>, i: int, v: u8, n: int)
    requires
        0 <= i < b.len(),
        0 <= n <= b.len(),
    ensures
        total_upto(b.update(i, v), n) == total_upto(b, n) + if i < n { v - b[i] } else { 0 },
    decreases n,
{
    if n > 0 {
        lemma_total_update(b, i, v, n - 1);
    }
}

proof fn lemma_cell_le_total(b: Seq<u8>, i: int, n: int)
    requires
        0 <= i < n <= b.len(),
    ensures
        b[i] <= total_upto(b, n),
        0 <= total_upto(b, n),
    decreases n,
{
    if n - 1 > i {
        lemma_cell_le_total(b, i, n - 1);
    } else {
        lemma_total_nonneg(b, n - 1);
    }
}

proof fn lemma_total_nonneg(b: Seq<u8>, n: int)
    requires
        0 <= n <= b.len(),
    ensures
        0 <= total_upto(b, n),
    decreases n,
{
    if n > 0 {
        lemma_total_nonneg(b, n - 1);
    }
}

/// Two distinct cells hold at most the board's total.
proof fn lemma_two_cells_le_total(b: Seq<u8>, i: int, j: int, n: int)
    requires
        0 <= i < n <= b.len(),
        0 <= j < n,
        i != j,
    ensures
        b[i] + b[j] <= total_upto(b, n),
    decreases n,
{
    if n - 1 == i {
        lemma_cell_le_total(b, j, n - 1);
    } else if n - 1 == j {
        lemma_cell_le_total(b, i, n - 1);
    } else {
        lemma_two_cells_le_total(b, i, j, n - 1);
    }
}

/// Three distinct cells hold at most the board's total.
proof fn lemma_three_cells_le_total(b: Seq<u8>, i: int, j: int, k: int, n: int)
    requires
        0 <= i < n <= b.len(),
        0 <= j < n,
        0 <= k < n,
        i != j,
        j != k,
        i != k,
    ensures
        b[i] + b[j] + b[k] <= total_upto(b, n),
    decreases n,
{
    if n - 1 == i {
        lemma_two_cells_le_total(b, j, k, n - 1);
    } else if n - 1 == j {
        lemma_two_cells_le_total(b, i, k, n - 1);
    } else if n - 1 == k {
        lemma_two_cells_le_total(b, i, j, n - 1);
    } else {
        lemma_three_cells_le_total(b, i, j, k, n - 1);
    }
}

impl Mancala {
    pub open spec fn wf(&self) -> bool {
        &&& 1 <= self.pits <= 8
        &&& (self.num_players == 2 || self.num_players == 4)
        &&& self.ring_len == self.num_players * (self.pits + 1)
        &&& self.current < self.num_players
        &&& total(self.board@) <= 255
    }

    pub open spec fn span(&self) -> int {
        self.pits + 1
    }

    pub open spec fn store_spec(&self, p: int) -> int {
        p * self.span() + self.pits
    }

    pub open spec fn wrap(&self, q: int) -> int {
        if q >= self.ring_len {
            q - self.ring_len
        } else {
            q
        }
    }

    /// `q` is the store of a player other than the side to move.
    pub open spec fn other_store(&self, q: int) -> bool {
        q % self.span() == self.pits && q / self.span() != self.current
    }

    /// The cell after `p` that receives a stone: the next cell on the ring, stepping
    /// over another player's store.
    pub open spec fn next_pos(&self, p: int) -> int {
        let q = self.wrap(p + 1);
        if self.other_store(q) {
            self.wrap(q + 1)
        } else {
            q
        }
    }

    /// The board and the last cell after sowing `k` stones lifted from `start`.
    pub open spec fn sow_spec(&self, start: int, k: int) -> (Seq<u8>, int)
        decreases k,
    {
        if k <= 0 {
            (self.board@.update(start, 0), start)
        } else {
            let (b, p) = self.sow_spec(start, k - 1);
            let q = self.next_pos(p);
            (b.update(q, (b[q] + 1) as u8), q)
        }
    }

    pub open spec fn owner(&self, q: int) -> int {
        q / self.span()
    }

    pub open spec fn local(&self, q: int) -> int {
        q % self.span()
    }

    /// The pit across the board from pit `q`: mirrored onto the other row with two
    /// players, the same pit of the player opposite with four.
    pub open spec fn opposite(&self, q: int) -> int {
        if self.num_players == 2 {
            (1 - self.owner(q)) * self.span() + (self.pits - 1 - self.local(q))
        } else {
            ((self.owner(q) + 2) % 4) * self.span() + self.local(q)
        }
    }

    /// The capture rule on board `b` after the last stone fell on `last`.
    pub open spec fn capture_spec(&self, b: Seq<u8>, last: int) -> Seq<u8> {
        let opp = self.opposite(last);
        let st = self.store_spec(self.current as int);
        if self.local(last) == self.pits || self.owner(last) != self.current || b[last] != 1 || b[opp] == 0 {
            b
        } else {
            b.update(st, (b[st] + b[opp] + 1) as u8).update(opp, 0).update(last, 0)
        }
    }

    pub open spec fn row_empty(&self, b: Seq<u8>, p: int) -> bool {
        forall|j: int| 0 <= j < self.pits ==> #[trigger] b[p * self.span() + j] == 0
    }

    pub open spec fn any_row_empty(&self, b: Seq<u8>) -> bool {
        exists|p: int| 0 <= p < self.num_players && #[trigger] self.row_empty(b, p)
    }

    /// Emptying the first `j` pits of player `p`'s row: the board and the stones taken.
    pub open spec fn drain(&self, b: Seq<u8>, p: int, j: int) -> (Seq<u8>, int)
        decreases j,
    {
        if j <= 0 {
            (b, 0)
        } else {
            let (b1, s) = self.drain(b, p, j - 1);
            let i = p * self.span() + j - 1;
            (b1.update(i, 0), s + b1[i])
        }
    }

    /// Sweep player `p`'s row into their store.
    pub open spec fn sweep(&self, b: Seq<u8>, p: int) -> Seq<u8> {
        let (b1, s) = self.drain(b, p, self.pits as int);
        let st = self.store_spec(p);
        b1.update(st, (b1[st] + s) as u8)
    }

    pub open spec fn sweep_upto(&self, b: Seq<u8>, n: int) -> Seq<u8>
        decreases n,
    {
        if n <= 0 {
            b
        } else {
            self.sweep(self.sweep_upto(b, n - 1), n - 1)
        }
    }

    /// Once some row is empty, every row goes into its owner's store.
    pub open spec fn collect_spec(&self, b: Seq<u8>) -> Seq<u8> {
        if self.any_row_empty(b) {
            self.sweep_upto(b, self.num_players as int)
        } else {
            b
        }
    }

    /// The position after the side to move plays pit `pit`: the board, and who moves
    /// next (the same player after a last stone in the own store).
    pub open spec fn after(&self, pit: int) -> (Seq<u8>, u8) {
        let start = self.current * self.span() + pit;
        let (b1, last) = self.sow_spec(start, self.board@[start] as int);
        let bonus = last == self.store_spec(self.current as int);
        let b2 = if bonus { b1 } else { self.capture_spec(b1, last) };
        (self.collect_spec(b2), if bonus { self.current } else { ((self.current + 1) % (self.num_players as int)) as u8 })
    }

    pub open spec fn moves_upto(&self, n: int) -> Seq<MancalaMove>
        decreases n,
    {
        if n <= 0 {
            seq![]
        } else {
            self.moves_upto(n - 1) + if self.board@[self.current * self.span() + n - 1] > 0 {
                seq![MancalaMove((n - 1) as u8)]
            } else {
                seq![]
            }
        }
    }

    /// The side to move's non-empty pits.
    pub open spec fn moves_spec(&self) -> Seq<MancalaMove> {
        self.moves_upto(self.pits as int)
    }

    pub open spec fn terminal_spec(&self) -> bool {
        self.row_empty(self.board@, self.current as int)
    }
}

proof fn lemma_ring(pits: int, np: int)
    requires
        1 <= pits <= 8,
        np == 2 || np == 4,
    ensures
        np * (pits + 1) <= 36,
        np * (pits + 1) >= 2 * (pits + 1),
{
    if np == 2 {
        assert(np * (pits + 1) == 2 * pits + 2);
    } else {
        assert(np * (pits + 1) == 4 * pits + 4);
    }
}

/// Row start and store of player `p` lie on the ring.
proof fn lemma_row_cells(pits: int, np: int, p: int, j: int)
    requires
        1 <= pits <= 8,
        np == 2 || np == 4,
        0 <= p < np,
        0 <= j <= pits,
    ensures
        0 <= p * (pits + 1) + j < np * (pits + 1),
        (p * (pits + 1) + j) / (pits + 1) == p,
        (p * (pits + 1) + j) % (pits + 1) == j,
{
    lemma_ring(pits, np);
    assert(0 <= p * (pits + 1) + j < np * (pits + 1)) by (nonlinear_arith)
        requires
            0 <= p < np,
            0 <= j <= pits,
    ;
    vstd::arithmetic::div_mod::lemma_fundamental_div_mod_converse(p * (pits + 1) + j, pits + 1, p, j);
}

/// The pit across from an own pit lies on the ring, in another row.
proof fn lemma_opposite(g: Mancala, q: int)
    requires
        g.wf(),
        0 <= q < g.ring_len,
        g.local(q) != g.pits,
    ensures
        0 <= g.opposite(q) < g.ring_len,
        g.owner(g.opposite(q)) != g.owner(q),
        g.local(g.opposite(q)) != g.pits,
        g.opposite(q) != g.store_spec(g.owner(q)),
{
    let span = g.span();
    vstd::arithmetic::div_mod::lemma_fundamental_div_mod(q, span);
    let (o, l) = (g.owner(q), g.local(q));
    assert(0 <= o < g.num_players) by {
        lemma_ring(g.pits as int, g.num_players as int);
        vstd::arithmetic::div_mod::lemma_div_pos_is_pos(q, span);
        vstd::arithmetic::div_mod::lemma_div_is_ordered(q, g.ring_len as int, span);
        vstd::arithmetic::div_mod::lemma_fundamental_div_mod_converse(g.ring_len as int, span, g.num_players as int, 0);
        if o >= g.num_players {
            assert(q >= span * o) by {
                vstd::arithmetic::div_mod::lemma_mod_pos_bound(q, span);
            }
            assert(span * o >= span * g.num_players) by (nonlinear_arith)
                requires
                    o >= g.num_players,
                    span > 0,
            ;
            assert(span * g.num_players == g.ring_len) by (nonlinear_arith)
                requires
                    g.ring_len == g.num_players * span,
            ;
        }
    }
    vstd::arithmetic::div_mod::lemma_mod_pos_bound(q, span);
    let oo = if g.num_players == 2 { 1 - o } else { (o + 2) % 4 };
    let ol = if g.num_players == 2 { g.pits - 1 - l } else { l };
    assert(g.opposite(q) == oo * span + ol);
    lemma_row_cells(g.pits as int, g.num_players as int, oo, ol);
    lemma_row_cells(g.pits as int, g.num_players as int, o, g.pits as int);
}

impl Mancala {
    /// A fresh game: `stones` in every pit, empty stores, the first player to move.
    pub fn new(pits: usize, stones: u8, num_players: usize) -> (g: Self)
        requires
            1 <= pits <= 8,
            num_players == 2 || num_players == 4,
            num_players * pits * stones <= 255,
        ensures
            g.wf(),
            g.pits == pits,
            g.num_players == num_players,
            g.current == 0,
            forall|i: int| 0 <= i < 36 ==> #[trigger] g.board@[i] == (if i < g.ring_len && i % (pits + 1) as int
                != pits as int { stones } else { 0 }),
    {
        proof {
            lemma_ring(pits as int, num_players as int);
        }
        let ring_len = num_players * (pits + 1);
        proof {
            vstd::arithmetic::div_mod::lemma_small_mod(0, (pits + 1) as nat);
            assert(0int / (pits + 1) as int == 0) by {
                vstd::arithmetic::div_mod::lemma_fundamental_div_mod_converse(0, (pits + 1) as int, 0, 0);
            }
        }
        let mut board = [0u8; 36];
        let mut i: usize = 0;
        let ghost mut placed: int = 0;
        while i < 36
            invariant
                1 <= pits <= 8,
                num_players == 2 || num_players == 4,
                ring_len == num_players * (pits + 1),
                ring_len <= 36,
                num_players * pits * stones <= 255,
                i <= 36,
                forall|j: int| 0 <= j < i ==> #[trigger] board@[j] == (if j < ring_len && j % (pits + 1) as int
                    != pits as int { stones } else { 0 }),
                forall|j: int| i <= j < 36 ==> #[trigger] board@[j] == 0,
                total_upto(board@, i as int) == placed * stones,
                0 <= placed <= i,
                placed <= num_players * pits,
                placed == (if i <= ring_len { (i as int / (pits + 1) as int) * pits as int + if (i as int % (pits + 1) as int) < pits as int { i as int % (pits + 1) as int } else { pits as int } } else { num_players * pits }),
            decreases 36 - i,
        {
            let ghost before = board@;
            let put = i < ring_len && i % (pits + 1) != pits;
            if put {
                board[i] = stones;
            }
            proof {
                let b = board@;
                assert(total_upto(b, i + 1) == total_upto(b, i as int) + b[i as int]);
                assert(total_upto(b, i as int) == placed * stones) by {
                    lemma_total_prefix_same(before, b, i as int);
                }
                let span = (pits + 1) as int;
                let ii = i as int;
                vstd::arithmetic::div_mod::lemma_fundamental_div_mod(ii, span);
                vstd::arithmetic::div_mod::lemma_fundamental_div_mod(ii + 1, span);
                if put {
                    placed = placed + 1;
                }
                assert(placed * stones == (placed - if put { 1int } else { 0 }) * stones + if put { stones as int } else { 0 }) by (nonlinear_arith);
                if ii + 1 <= ring_len {
                    if ii % span < pits {
                        assert((ii + 1) / span == ii / span && (ii + 1) % span == ii % span + 1) by {
                            vstd::arithmetic::div_mod::lemma_fundamental_div_mod_converse(ii + 1, span, ii / span, ii % span + 1);
                        }
                    } else {
                        assert(ii + 1 == (ii / span + 1) * span + 0) by (nonlinear_arith)
                            requires
                                ii == span * (ii / span) + ii % span,
                                ii % span == span - 1,
                        ;
                        assert((ii + 1) / span == ii / span + 1 && (ii + 1) % span == 0) by {
                            vstd::arithmetic::div_mod::lemma_fundamental_div_mod_converse(ii + 1, span, ii / span + 1, 0);
                        }
                        assert((ii / span + 1) * pits == (ii / span) * pits + pits) by (nonlinear_arith);
                    }
                } else {
                    if ii == ring_len {
                        vstd::arithmetic::div_mod::lemma_fundamental_div_mod_converse(ii, span, num_players as int, 0);
                    }
                }
                assert(placed <= num_players * pits) by {
                    if ii + 1 <= ring_len {
                        vstd::arithmetic::div_mod::lemma_div_is_ordered(ii + 1, ring_len as int, span);
                        vstd::arithmetic::div_mod::lemma_fundamental_div_mod_converse(ring_len as int, span, num_players as int, 0);
                        let q = (ii + 1) / span;
                        if q < num_players {
                            assert(q * pits + pits <= num_players * pits) by (nonlinear_arith)
                                requires
                                    q <= num_players - 1,
                                    pits >= 0,
                            ;
                        } else {
                            assert((ii + 1) % span == 0) by {
                                vstd::arithmetic::div_mod::lemma_fundamental_div_mod(ii + 1, span);
                                assert(span * num_players == ring_len) by (nonlinear_arith)
                                    requires
                                        ring_len == num_players * span,
                                ;
                                assert(span * q == span * num_players);
                            }
                        }
                    }
                }
                assert(placed * stones <= num_players * pits * stones) by (nonlinear_arith)
                    requires
                        placed <= num_players * pits,
                        placed >= 0,
                ;
            }
            i += 1;
        }
        proof {
            assert(placed * stones <= num_players * pits * stones) by (nonlinear_arith)
                requires
                    placed <= num_players * pits,
                    placed >= 0,
            ;
        }
        Mancala { board, pits, num_players, current: 0, ring_len }
    }
}

impl Mancala {
    pub fn ring_len(&self) -> (n: usize)
        ensures
            n == self.ring_len,
    {
        self.ring_len
    }

    pub fn store_index(&self, player: usize) -> (i: usize)
        requires
            self.wf(),
            player < self.num_players,
        ensures
            i == self.store_spec(player as int),
            i < self.ring_len,
    {
        proof {
            lemma_row_cells(self.pits as int, self.num_players as int, player as int, self.pits as int);
        }
        player * (self.pits + 1) + self.pits
    }

    pub fn player_pit_start(&self, player: usize) -> (i: usize)
        requires
            self.wf(),
            player < self.num_players,
        ensures
            i == player * self.span(),
            i + self.pits < self.ring_len,
    {
        proof {
            lemma_row_cells(self.pits as int, self.num_players as int, player as int, self.pits as int);
        }
        player * (self.pits + 1)
    }

    fn next(&self, pos: usize) -> (q: usize)
        requires
            self.wf(),
            pos < self.ring_len,
        ensures
            q == self.next_pos(pos as int),
            q < self.ring_len,
    {
        proof {
            lemma_ring(self.pits as int, self.num_players as int);
        }
        let span = self.pits + 1;
        let mut q = pos + 1;
        if q >= self.ring_len {
            q -= self.ring_len;
        }
        if q % span == self.pits && q / span != self.current as usize {
            q += 1;
            if q >= self.ring_len {
                q -= self.ring_len;
            }
        }
        q
    }

    /// Lift the stones of the side to move's pit `pit_local` and sow them; the cell
    /// where the last one fell.
    fn sow(&mut self, pit_local: usize) -> (last: usize)
        requires
            old(self).wf(),
            pit_local < old(self).pits,
        ensures
            (final(self).board@, last as int) == old(self).sow_spec(
                old(self).current * old(self).span() + pit_local,
                old(self).board@[old(self).current * old(self).span() + pit_local] as int,
            ),
            last < old(self).ring_len,
            final(self).pits == old(self).pits,
            final(self).num_players == old(self).num_players,
            final(self).current == old(self).current,
            final(self).ring_len == old(self).ring_len,
            total(final(self).board@) == total(old(self).board@),
    {
        let ghost g0 = *self;
        proof {
            lemma_row_cells(self.pits as int, self.num_players as int, self.current as int, pit_local as int);
            lemma_ring(self.pits as int, self.num_players as int);
        }
        let cur = self.current as usize;
        let start = cur * (self.pits + 1) + pit_local;
        let stones = self.board[start];
        self.board[start] = 0;
        proof {
            lemma_total_update(g0.board@, start as int, 0, 36);
        }
        let mut pos = start;
        let mut k: u8 = 0;
        while k < stones
            invariant
                g0.wf(),
                self.pits == g0.pits,
                self.num_players == g0.num_players,
                self.current == g0.current,
                self.ring_len == g0.ring_len,
                g0.ring_len <= 36,
                start < g0.ring_len,
                stones == g0.board@[start as int],
                k <= stones,
                self.board@.len() == 36,
                pos < g0.ring_len,
                (self.board@, pos as int) == g0.sow_spec(start as int, k as int),
                total(self.board@) == total(g0.board@) - stones + k,
            decreases stones - k,
        {
            let q = self.next(pos);
            proof {
                lemma_cell_le_total(self.board@, q as int, 36);
            }
            let ghost before = self.board@;
            let v = self.board[q];
            self.board[q] = v + 1;
            proof {
                lemma_total_update(before, q as int, (v + 1) as u8, 36);
            }
            pos = q;
            k += 1;
        }
        pos
    }
}

impl Mancala {
    /// The capture rule after the last stone fell on `last`.
    fn maybe_capture(&mut self, last: usize)
        requires
            old(self).wf(),
            last < old(self).ring_len,
        ensures
            final(self).board@ == old(self).capture_spec(old(self).board@, last as int),
            final(self).pits == old(self).pits,
            final(self).num_players == old(self).num_players,
            final(self).current == old(self).current,
            final(self).ring_len == old(self).ring_len,
            total(final(self).board@) == total(old(self).board@),
    {
        let ghost g0 = *self;
        proof {
            lemma_ring(self.pits as int, self.num_players as int);
        }
        let span = self.pits + 1;
        let cur = self.current as usize;
        if last % span == self.pits {
            return;
        }
        if last / span != cur {
            return;
        }
        if self.board[last] != 1 {
            return;
        }
        proof {
            lemma_opposite(*self, last as int);
        }
        let owner = last / span;
        let local = last % span;
        let opp = if self.num_players == 2 {
            (1 - owner) * span + (self.pits - 1 - local)
        } else {
            ((owner + 2) % 4) * span + local
        };
        if self.board[opp] > 0 {
            let st = self.store_index(cur);
            proof {
                lemma_row_cells(self.pits as int, self.num_players as int, cur as int, self.pits as int);
                lemma_three_cells_le_total(self.board@, st as int, opp as int, last as int, 36);
            }
            let b0 = self.board;
            self.board[st] = b0[st] + b0[opp] + 1;
            let b1 = self.board;
            self.board[opp] = 0;
            let b2 = self.board;
            self.board[last] = 0;
            proof {
                lemma_total_update(b0@, st as int, (b0@[st as int] + b0@[opp as int] + 1) as u8, 36);
                lemma_total_update(b1@, opp as int, 0, 36);
                lemma_total_update(b2@, last as int, 0, 36);
            }
        }
    }

    /// Whether player `p`'s row is empty.
    fn row_is_empty(&self, p: usize) -> (e: bool)
        requires
            self.wf(),
            p < self.num_players,
        ensures
            e == self.row_empty(self.board@, p as int),
    {
        let start = self.player_pit_start(p);
        proof {
            lemma_ring(self.pits as int, self.num_players as int);
        }
        let mut j: usize = 0;
        while j < self.pits
            invariant
                self.wf(),
                p < self.num_players,
                start == p * self.span(),
                start + self.pits < self.ring_len,
                self.ring_len <= 36,
                j <= self.pits,
                forall|k: int| 0 <= k < j ==> #[trigger] self.board@[p * self.span() + k] == 0,
            decreases self.pits - j,
        {
            if self.board[start + j] != 0 {
                return false;
            }
            j += 1;
        }
        true
    }

    fn any_row_empty_exec(&self) -> (e: bool)
        requires
            self.wf(),
        ensures
            e == self.any_row_empty(self.board@),
    {
        let mut p: usize = 0;
        while p < self.num_players
            invariant
                self.wf(),
                p <= self.num_players,
                forall|q: int| 0 <= q < p ==> !#[trigger] self.row_empty(self.board@, q),
            decreases self.num_players - p,
        {
            if self.row_is_empty(p) {
                return true;
            }
            p += 1;
        }
        false
    }
}

proof fn lemma_drain(g: Mancala, b: Seq<u8>, p: int, j: int)
    requires
        g.wf(),
        b.len() == 36,
        0 <= p < g.num_players,
        0 <= j <= g.pits,
    ensures
        g.drain(b, p, j).0.len() == 36,
        total(g.drain(b, p, j).0) + g.drain(b, p, j).1 == total(b),
        g.drain(b, p, j).1 >= 0,
        forall|i: int| 0 <= i < 36 && !(p * g.span() <= i < p * g.span() + j) ==> #[trigger] g.drain(b, p, j).0[i] == b[i],
        forall|k: int| 0 <= k < j ==> #[trigger] g.drain(b, p, j).0[p * g.span() + k] == 0,
    decreases j,
{
    if j > 0 {
        lemma_drain(g, b, p, j - 1);
        let (b1, s) = g.drain(b, p, j - 1);
        let i = p * g.span() + j - 1;
        lemma_row_cells(g.pits as int, g.num_players as int, p, j - 1);
        lemma_ring(g.pits as int, g.num_players as int);
        lemma_total_update(b1, i, 0, 36);
    }
}

impl Mancala {
    /// Sweep player `p`'s row into their store.
    fn sweep_exec(&mut self, p: usize)
        requires
            old(self).wf(),
            p < old(self).num_players,
        ensures
            final(self).board@ == old(self).sweep(old(self).board@, p as int),
            final(self).pits == old(self).pits,
            final(self).num_players == old(self).num_players,
            final(self).current == old(self).current,
            final(self).ring_len == old(self).ring_len,
            total(final(self).board@) == total(old(self).board@),
    {
        let ghost g0 = *self;
        let start = self.player_pit_start(p);
        proof {
            lemma_ring(self.pits as int, self.num_players as int);
        }
        let mut sum: u8 = 0;
        let mut j: usize = 0;
        while j < self.pits
            invariant
                g0.wf(),
                self.pits == g0.pits,
                self.num_players == g0.num_players,
                self.current == g0.current,
                self.ring_len == g0.ring_len,
                self.board@.len() == 36,
                p < g0.num_players,
                start == p * g0.span(),
                start + g0.pits < g0.ring_len,
                g0.ring_len <= 36,
                j <= g0.pits,
                (self.board@, sum as int) == g0.drain(g0.board@, p as int, j as int),
            decreases g0.pits - j,
        {
            proof {
                lemma_drain(g0, g0.board@, p as int, j as int);
                lemma_total_nonneg(self.board@, 36);
                lemma_cell_le_total(self.board@, (start + j) as int, 36);
            }
            sum = sum + self.board[start + j];
            self.board[start + j] = 0;
            j += 1;
        }
        proof {
            lemma_drain(g0, g0.board@, p as int, g0.pits as int);
            lemma_row_cells(g0.pits as int, g0.num_players as int, p as int, g0.pits as int);
            lemma_ring(g0.pits as int, g0.num_players as int);
        }
        let st = start + self.pits;
        proof {
            lemma_cell_le_total(self.board@, st as int, 36);
        }
        let ghost before = self.board@;
        self.board[st] = self.board[st] + sum;
        proof {
            lemma_total_update(before, st as int, (before[st as int] + sum) as u8, 36);
        }
    }

    /// Once some row is empty, sweep every row into its owner's store; whether it did.
    fn collect_remaining(&mut self) -> (swept: bool)
        requires
            old(self).wf(),
        ensures
            swept == old(self).any_row_empty(old(self).board@),
            final(self).board@ == old(self).collect_spec(old(self).board@),
            final(self).pits == old(self).pits,
            final(self).num_players == old(self).num_players,
            final(self).current == old(self).current,
            final(self).ring_len == old(self).ring_len,
            total(final(self).board@) == total(old(self).board@),
    {
        if !self.any_row_empty_exec() {
            return false;
        }
        let ghost g0 = *self;
        let mut p: usize = 0;
        while p < self.num_players
            invariant
                self.wf(),
                self.pits == g0.pits,
                self.num_players == g0.num_players,
                self.current == g0.current,
                self.ring_len == g0.ring_len,
                p <= self.num_players,
                self.board@ == g0.sweep_upto(g0.board@, p as int),
                total(self.board@) == total(g0.board@),
            decreases self.num_players - p,
        {
            proof {
                lemma_same_shape_sweep(*self, g0, self.board@, p as int);
            }
            self.sweep_exec(p);
            p += 1;
        }
        true
    }
}

/// Draining depends on the board's shape only, not on the rest of the position.
proof fn lemma_same_shape_drain(g: Mancala, h: Mancala, b: Seq<u8>, p: int, j: int)
    requires
        g.pits == h.pits,
        g.num_players == h.num_players,
    ensures
        g.drain(b, p, j) == h.drain(b, p, j),
    decreases j,
{
    if j > 0 {
        lemma_same_shape_drain(g, h, b, p, j - 1);
    }
}

proof fn lemma_same_shape_sweep(g: Mancala, h: Mancala, b: Seq<u8>, p: int)
    requires
        g.pits == h.pits,
        g.num_players == h.num_players,
    ensures
        g.sweep(b, p) == h.sweep(b, p),
{
    lemma_same_shape_drain(g, h, b, p, g.pits as int);
}

proof fn lemma_same_shape_collect(g: Mancala, h: Mancala, b: Seq<u8>, n: int)
    requires
        g.pits == h.pits,
        g.num_players == h.num_players,
    ensures
        g.sweep_upto(b, n) == h.sweep_upto(b, n),
        n == g.num_players ==> g.collect_spec(b) == h.collect_spec(b),
    decreases n,
{
    if n > 0 {
        lemma_same_shape_collect(g, h, b, n - 1);
        lemma_same_shape_sweep(g, h, g.sweep_upto(b, n - 1), n - 1);
    }
    assert forall|p: int| #[trigger] g.row_empty(b, p) == h.row_empty(b, p) by {
        assert(g.span() == h.span());
        if g.row_empty(b, p) {
            assert forall|j: int| 0 <= j < h.pits implies #[trigger] b[p * h.span() + j] == 0 by {
                assert(b[p * g.span() + j] == 0);
            }
        }
        if h.row_empty(b, p) {
            assert forall|j: int| 0 <= j < g.pits implies #[trigger] b[p * g.span() + j] == 0 by {
                assert(b[p * h.span() + j] == 0);
            }
        }
    }
    if g.any_row_empty(b) {
        let p = choose|p: int| 0 <= p < g.num_players && #[trigger] g.row_empty(b, p);
        assert(h.row_empty(b, p));
    }
    if h.any_row_empty(b) {
        let p = choose|p: int| 0 <= p < h.num_players && #[trigger] h.row_empty(b, p);
        assert(g.row_empty(b, p));
    }
}

impl Mancala {
    /// Play pit `m` of the side to move: sow, capture unless the last stone reached
    /// the own store, sweep the rows if one is empty, and pass the turn unless the
    /// last stone reached the own store.
    pub fn make_move(&mut self, m: &MancalaMove)
        requires
            old(self).wf(),
            (m.0 as int) < old(self).pits,
        ensures
            final(self).wf(),
            final(self).pits == old(self).pits,
            final(self).num_players == old(self).num_players,
            final(self).ring_len == old(self).ring_len,
            final(self).board@ == old(self).after(m.0 as int).0,
            final(self).current == old(self).after(m.0 as int).1,
            total(final(self).board@) == total(old(self).board@),
    {
        let ghost g0 = *self;
        let last = self.sow(m.0 as usize);
        let own_store = self.store_index(self.current as usize);
        let bonus = last == own_store;
        if !bonus {
            self.maybe_capture(last);
        }
        proof {
            lemma_same_shape_collect(*self, g0, self.board@, self.num_players as int);
        }
        self.collect_remaining();
        if !bonus {
            self.current = ((self.current as usize + 1) % self.num_players) as u8;
        }
    }

    pub fn current_player(&self) -> (p: u8)
        ensures
            p == self.current,
    {
        self.current
    }

    /// The side to move's non-empty pits.
    pub fn available_moves(&self) -> (v: Vec<MancalaMove>)
        requires
            self.wf(),
        ensures
            v@ == self.moves_spec(),
    {
        let start = self.player_pit_start(self.current as usize);
        let mut v: Vec<MancalaMove> = Vec::new();
        let mut j: usize = 0;
        while j < self.pits
            invariant
                self.wf(),
                start == self.current * self.span(),
                start + self.pits < self.ring_len,
                self.ring_len <= 36,
                j <= self.pits,
                v@ == self.moves_upto(j as int),
            decreases self.pits - j,
        {
            proof {
                lemma_ring(self.pits as int, self.num_players as int);
            }
            if self.board[start + j] > 0 {
                v.push(MancalaMove(j as u8));
            }
            j += 1;
        }
        v
    }

    /// The side to move's row is empty: with the sweep after every move, that means
    /// the game is over.
    pub fn is_terminal(&self) -> (b: bool)
        requires
            self.wf(),
        ensures
            b == self.terminal_spec(),
    {
        self.row_is_empty(self.current as usize)
    }

    pub fn score(&self, player: u8) -> (s: u8)
        requires
            self.wf(),
            (player as int) < self.num_players,
        ensures
            s == self.board@[self.store_spec(player as int)],
    {
        let i = self.store_index(player as usize);
        proof {
            lemma_ring(self.pits as int, self.num_players as int);
        }
        self.board[i]
    }
}

impl Mancala {
    /// The largest store among players `0..n` (0 for none).
    pub open spec fn max_store(&self, n: int) -> int
        decreases n,
    {
        if n <= 0 {
            0
        } else {
            let m = self.max_store(n - 1);
            let v = self.board@[self.store_spec(n - 1)] as int;
            if v > m { v } else { m }
        }
    }

    /// The largest store among players `0..n` other than `p` (0 for none).
    pub open spec fn max_other(&self, p: int, n: int) -> int
        decreases n,
    {
        if n <= 0 {
            0
        } else {
            let m = self.max_other(p, n - 1);
            let v = self.board@[self.store_spec(n - 1)] as int;
            if n - 1 != p && v > m { v } else { m }
        }
    }

    /// The players among `0..n` whose store holds `mx`.
    pub open spec fn holders(&self, mx: int, n: int) -> Seq<u8>
        decreases n,
    {
        if n <= 0 {
            seq![]
        } else {
            self.holders(mx, n - 1) + if self.board@[self.store_spec(n - 1)] == mx { seq![(n - 1) as u8] } else { seq![] }
        }
    }

    /// The sole player with the fullest store once the game is over.
    pub open spec fn winner_spec(&self) -> Option<u8> {
        let w = self.holders(self.max_store(self.num_players as int), self.num_players as int);
        if self.terminal_spec() && w.len() == 1 {
            Some(w[0])
        } else {
            None
        }
    }

    /// Once over: a win for the side to move with a fuller store than every other
    /// player, a loss with a smaller one than some player, a draw otherwise.
    pub open spec fn term_spec(&self) -> Option<Outcome> {
        if !self.terminal_spec() {
            None
        } else {
            let mine = self.board@[self.store_spec(self.current as int)] as int;
            let other = self.max_other(self.current as int, self.num_players as int);
            Some(if mine > other { Outcome::Win } else if mine < other { Outcome::Loss } else { Outcome::Draw })
        }
    }

    fn store_value(&self, p: usize) -> (v: u8)
        requires
            self.wf(),
            p < self.num_players,
        ensures
            v == self.board@[self.store_spec(p as int)],
    {
        let i = self.store_index(p);
        proof {
            lemma_ring(self.pits as int, self.num_players as int);
        }
        self.board[i]
    }

    pub fn winner(&self) -> (w: Option<u8>)
        requires
            self.wf(),
        ensures
            w == self.winner_spec(),
    {
        if !self.is_terminal() {
            return None;
        }
        let mut mx: u8 = 0;
        let mut p: usize = 0;
        while p < self.num_players
            invariant
                self.wf(),
                p <= self.num_players,
                mx == self.max_store(p as int),
            decreases self.num_players - p,
        {
            let v = self.store_value(p);
            if v > mx {
                mx = v;
            }
            p += 1;
        }
        let mut winners: Vec<u8> = Vec::new();
        let mut q: usize = 0;
        while q < self.num_players
            invariant
                self.wf(),
                q <= self.num_players,
                mx == self.max_store(self.num_players as int),
                winners@ == self.holders(mx as int, q as int),
            decreases self.num_players - q,
        {
            if self.store_value(q) == mx {
                winners.push(q as u8);
            }
            q += 1;
        }
        if winners.len() == 1 {
            Some(winners[0])
        } else {
            None
        }
    }

    pub fn terminal_value(&self) -> (t: Option<Outcome>)
        requires
            self.wf(),
        ensures
            t == self.term_spec(),
    {
        if !self.is_terminal() {
            return None;
        }
        let cur = self.current as usize;
        let mine = self.store_value(cur);
        let mut other: u8 = 0;
        let mut p: usize = 0;
        while p < self.num_players
            invariant
                self.wf(),
                cur == self.current,
                p <= self.num_players,
                other == self.max_other(cur as int, p as int),
            decreases self.num_players - p,
        {
            if p != cur {
                let v = self.store_value(p);
                if v > other {
                    other = v;
                }
            }
            p += 1;
        }
        Some(if mine > other { Outcome::Win } else if mine < other { Outcome::Loss } else { Outcome::Draw })
    }
}

/// The heuristic value of a position for each player.
#[derive(Clone, Copy, Debug)]
pub struct MancalaStateEval {
    pub scores: [i32; 4],
    pub num_players: u8,
}

impl Mancala {
    /// Stones in the first `j` pits of player `p`'s row.
    pub open spec fn row_total(&self, p: int, j: int) -> int
        decreases j,
    {
        if j <= 0 {
            0
        } else {
            self.row_total(p, j - 1) + self.board@[p * self.span() + j - 1]
        }
    }

    /// Twice the store plus the stones still on the row, per player (0 for absent
    /// seats).
    pub open spec fn eval_score(&self, p: int) -> int {
        if p < self.num_players {
            2 * self.board@[self.store_spec(p)] + self.row_total(p, self.pits as int)
        } else {
            0
        }
    }

    pub fn compute(&self) -> (e: MancalaStateEval)
        requires
            self.wf(),
        ensures
            e.num_players == self.num_players,
            forall|p: int| 0 <= p < 4 ==> #[trigger] e.scores@[p] == self.eval_score(p),
    {
        let mut scores = [0i32; 4];
        let mut p: usize = 0;
        proof {
            lemma_ring(self.pits as int, self.num_players as int);
        }
        while p < self.num_players
            invariant
                self.wf(),
                self.ring_len <= 36,
                p <= self.num_players,
                forall|q: int| 0 <= q < p ==> #[trigger] scores@[q] == self.eval_score(q),
                forall|q: int| p <= q < 4 ==> #[trigger] scores@[q] == 0,
            decreases self.num_players - p,
        {
            let store = self.store_value(p) as i32;
            let start = self.player_pit_start(p);
            let mut row: i32 = 0;
            let mut j: usize = 0;
            while j < self.pits
                invariant
                    self.wf(),
                    self.ring_len <= 36,
                    p < self.num_players,
                    start == p * self.span(),
                    start + self.pits < self.ring_len,
                    j <= self.pits,
                    row == self.row_total(p as int, j as int),
                    0 <= row <= 255 * j,
                decreases self.pits - j,
            {
                row = row + self.board[start + j] as i32;
                j += 1;
            }
            scores[p] = store * 2 + row;
            p += 1;
        }
        MancalaStateEval { scores, num_players: self.num_players as u8 }
    }
}

/// The largest score among players `0..n` other than `p`, if there is one.
pub open spec fn best_other_score(s: Seq<i32>, p: int, n: int) -> Option<int>
    decreases n,
{
    if n <= 0 {
        None
    } else {
        let m = best_other_score(s, p, n - 1);
        if n - 1 == p {
            m
        } else {
            match m {
                None => Some(s[n - 1] as int),
                Some(x) => Some(if s[n - 1] > x { s[n - 1] as int } else { x }),
            }
        }
    }
}

/// The value of a position for `player`: their score less the best other score
/// (less 0 when no other player is counted).
pub fn eval_for(e: &MancalaStateEval, player: u8) -> (v: i64)
    requires
        (player as int) < 4,
        e.num_players <= 4,
        ({
            let o = best_other_score(e.scores@, player as int, e.num_players as int);
            let x = match o { Some(x) => x, None => 0 };
            i32::MIN <= e.scores@[player as int] - x <= i32::MAX
        }),
    ensures
        v == e.scores@[player as int] - (match best_other_score(e.scores@, player as int, e.num_players as int) {
            Some(x) => x,
            None => 0,
        }),
{
    let p = player as usize;
    let n = e.num_players as usize;
    let mine = e.scores[p];
    let mut best: Option<i32> = None;
    let mut q: usize = 0;
    while q < n
        invariant
            n == e.num_players,
            n <= 4,
            p == player,
            q <= n,
            best matches Some(x) ==> best_other_score(e.scores@, p as int, q as int) == Some(x as int),
            best is None ==> best_other_score(e.scores@, p as int, q as int) is None,
        decreases n - q,
    {
        if q != p {
            let v = e.scores[q];
            best = match best {
                None => Some(v),
                Some(x) => Some(if v > x { v } else { x }),
            };
        }
        q += 1;
    }
    let other: i32 = match best {
        Some(x) => x,
        None => 0,
    };
    (mine - other) as i64
}

/// The table of a new game: pits clamped to 2..=8, four players when asked for four
/// and two otherwise, the stone count read as a byte and clamped to 1..=8.
pub fn settings(pits: u32, stones: u32, num_players: u32) -> (r: (usize, u8, usize))
    ensures
        r.0 == (if pits < 2 { 2 } else if pits > 8 { 8 } else { pits }),
        r.1 == (if (stones as u8) < 1 { 1 } else if (stones as u8) > 8 { 8 } else { stones as u8 }),
        r.2 == (if num_players == 4 { 4usize } else { 2 }),
{
    let p: usize = if pits < 2 { 2 } else if pits > 8 { 8 } else { pits as usize };
    let s = stones as u8;
    let s = if s < 1 { 1 } else if s > 8 { 8 } else { s };
    (p, s, if num_players == 4 { 4 } else { 2 })
}

pub open spec fn cells_text(b: Seq<u8>, n: int) -> Seq<char> {
    join_nums(Seq::new(n as nat, |i: int| b[i] as int), ',')
}

impl Mancala {
    fn push_cells(s: &mut String, cells: &Vec<u8>)
        ensures
            final(s)@ == old(s)@ + join_nums(Seq::new(cells@.len(), |i: int| cells@[i] as int), ','),
    {
        let mut v: Vec<u16> = Vec::new();
        let mut i: usize = 0;
        while i < cells.len()
            invariant
                i <= cells@.len(),
                v@.len() == i,
                forall|j: int| 0 <= j < i ==> #[trigger] v@[j] == cells@[j] as u16,
            decreases cells@.len() - i,
        {
            v.push(cells[i] as u16);
            i += 1;
        }
        crate::text::push_joined(s, &v, ',');
        assert(crate::text::u16s(v@) =~= Seq::new(cells@.len(), |i: int| cells@[i] as int));
    }

    /// The stones of every ring cell in ring order, joined by commas.
    pub fn board_string(&self) -> (s: String)
        requires
            self.wf(),
        ensures
            s@ == cells_text(self.board@, self.ring_len as int),
    {
        proof {
            lemma_ring(self.pits as int, self.num_players as int);
        }
        let mut cells: Vec<u8> = Vec::new();
        let mut i: usize = 0;
        while i < self.ring_len
            invariant
                self.wf(),
                self.ring_len <= 36,
                i <= self.ring_len,
                cells@.len() == i,
                forall|j: int| 0 <= j < i ==> #[trigger] cells@[j] == self.board@[j],
            decreases self.ring_len - i,
        {
            cells.push(self.board[i]);
            i += 1;
        }
        let mut s = String::new();
        Self::push_cells(&mut s, &cells);
        assert(Seq::new(cells@.len(), |i: int| cells@[i] as int) =~= Seq::new(self.ring_len as nat, |i: int| self.board@[i] as int));
        s
    }

    /// The stores, one per player, joined by commas.
    pub fn scores_string(&self) -> (s: String)
        requires
            self.wf(),
        ensures
            s@ == join_nums(Seq::new(self.num_players as nat, |p: int| self.board@[self.store_spec(p)] as int), ','),
    {
        let mut cells: Vec<u8> = Vec::new();
        let mut p: usize = 0;
        while p < self.num_players
            invariant
                self.wf(),
                p <= self.num_players,
                cells@.len() == p,
                forall|j: int| 0 <= j < p ==> #[trigger] cells@[j] == self.board@[self.store_spec(j)],
            decreases self.num_players - p,
        {
            cells.push(self.store_value(p));
            p += 1;
        }
        let mut s = String::new();
        Self::push_cells(&mut s, &cells);
        assert(Seq::new(cells@.len(), |i: int| cells@[i] as int) =~= Seq::new(self.num_players as nat, |p: int| self.board@[self.store_spec(p)] as int));
        s
    }

    /// The side to move's playable pits, joined by commas.
    pub fn legal_moves_string(&self) -> (s: String)
        requires
            self.wf(),
        ensures
            s@ == join_nums(Seq::new(self.moves_spec().len(), |i: int| self.moves_spec()[i].0 as int), ','),
    {
        let moves = self.available_moves();
        let mut cells: Vec<u8> = Vec::new();
        let mut i: usize = 0;
        while i < moves.len()
            invariant
                i <= moves@.len(),
                cells@.len() == i,
                forall|j: int| 0 <= j < i ==> #[trigger] cells@[j] == moves@[j].0,
            decreases moves@.len() - i,
        {
            cells.push(moves[i].0);
            i += 1;
        }
        let mut s = String::new();
        Self::push_cells(&mut s, &cells);
        assert(Seq::new(cells@.len(), |i: int| cells@[i] as int) =~= Seq::new(self.moves_spec().len(), |i: int| self.moves_spec()[i].0 as int));
        s
    }

    /// Empty while the game runs; `P` and the winner counted from 1, or `Draw`, once over.
    pub fn result_string(&self) -> (s: String)
        requires
            self.wf(),
        ensures
            !self.terminal_spec() ==> s@ == Seq::<char>::empty(),
            self.terminal_spec() ==> s@ == (match self.winner_spec() {
                Some(p) => seq!['P'] + dec((p + 1) as nat),
                None => seq!['D', 'r', 'a', 'w'],
            }),
    {
        let mut s = String::new();
        if !self.is_terminal() {
            return s;
        }
        match self.winner() {
            Some(p) => {
                push_char(&mut s, 'P');
                push_dec(&mut s, p as u64 + 1);
            },
            None => {
                push_str(&mut s, "Draw");
                proof {
                    reveal_strlit("Draw");
                }
            },
        }
        s
    }

    /// Play the pit that `mov` names if it is one of the side to move's playable pits;
    /// false, leaving the game unchanged, otherwise.
    pub fn apply_text(&mut self, mov: &str) -> (ok: bool)
        requires
            old(self).wf(),
        ensures
            final(self).wf(),
            ok == (parse_uint(mov@, 255) matches Some(v) && v < old(self).pits && old(self).moves_spec().contains(
                MancalaMove(v as u8),
            )),
            !ok ==> final(self).board@ == old(self).board@ && final(self).current == old(self).current,
            ok ==> final(self).board@ == old(self).after(parse_uint(mov@, 255)->0).0
                && final(self).current == old(self).after(parse_uint(mov@, 255)->0).1,
            !ok ==> *final(self) == *old(self),
            ok ==> final(self).pits == old(self).pits && final(self).num_players == old(self).num_players && final(self).ring_len == old(self).ring_len,
    {
        let cs = chars_of(mov);
        proof {
            assert(cs@.subrange(0, cs@.len() as int) =~= mov@);
        }
        let v = match parse_uint_range(&cs, 0, cs.len(), 255) {
            Some(v) => v,
            None => {
                return false;
            },
        };
        if v as usize >= self.pits {
            return false;
        }
        let m = MancalaMove(v as u8);
        let moves = self.available_moves();
        let mut found = false;
        let mut i: usize = 0;
        while i < moves.len()
            invariant
                i <= moves@.len(),
                found == exists|j: int| 0 <= j < i && moves@[j] == m,
            decreases moves@.len() - i,
        {
            if moves[i] == m {
                found = true;
            }
            i += 1;
        }
        if !found {
            return false;
        }
        self.make_move(&m);
        true
    }
}

/// Sowing never drops a stone into another player's store: the cell after any ring
/// cell that receives a stone is the mover's own store or a pit.
pub proof fn lemma_sowing_skips_other_stores(g: Mancala, p: int)
    requires
        g.wf(),
        0 <= p < g.ring_len,
    ensures
        0 <= g.next_pos(p) < g.ring_len,
        !g.other_store(g.next_pos(p)),
{
    lemma_ring(g.pits as int, g.num_players as int);
    let span = g.span();
    let q = g.wrap(p + 1);
    if g.other_store(q) {
        vstd::arithmetic::div_mod::lemma_fundamental_div_mod(q, span);
        let r = g.wrap(q + 1);
        if q + 1 >= g.ring_len {
            assert(r == 0);
            vstd::arithmetic::div_mod::lemma_small_mod(0, span as nat);
        } else {
            assert(q + 1 == (q / span + 1) * span + 0) by (nonlinear_arith)
                requires
                    q == span * (q / span) + q % span,
                    q % span == span - 1,
            ;
            vstd::arithmetic::div_mod::lemma_fundamental_div_mod_converse(q + 1, span, q / span + 1, 0);
        }
    }
}

proof fn lemma_total_prefix_same(a: Seq<u8>, b: Seq<u8>, n: int)
    requires
        0 <= n <= a.len(),
        n <= b.len(),
        forall|j: int| 0 <= j < n ==> a[j] == b[j],
    ensures
        total_upto(a, n) == total_upto(b, n),
    decreases n,
{
    if n > 0 {
        lemma_total_prefix_same(a, b, n - 1);
    }
}

} // verus!
