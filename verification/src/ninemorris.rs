//! Nine Men's Morris on 24 points across three concentric squares. Players first
//! place their men on empty points, then slide a man along a drawn line to an
//! adjacent empty point (or anywhere, flying, with three men left when enabled; in
//! the Lasker variant a player may slide instead of placing while men remain in
//! hand). Completing a mill of three removes one enemy man, one outside a mill
//! unless every enemy man stands in one. A player reduced to two men or without a
//! move loses; a long stretch without placement or capture is a draw.
use vstd::prelude::*;
use crate::outcome::Outcome;
use crate::text::{push_char, push_str, push_dec, dec, chars_of, parse_uint, parse_uint_range};

verus! {

pub const N_POINTS: usize = 24;
/// `from` of a placement.
pub const PLACE: u8 = 255;
/// `victim` of a move that removes nothing.
pub const NONE: u8 = 255;
/// Plies without a placement or capture after which the game is drawn.
pub const DRAW_PLY_CAP: u32 = 50;

/// A placement (`from == PLACE`) or slide to `to`, removing `victim` unless it is `NONE`.
#[derive(Clone, Copy, Debug, PartialEq, Eq, Structural)]
pub struct NmMove {
    pub from: u8,
    pub to: u8,
    pub victim: u8,
}

/// The three points of mill line `k`: eight along the sides of the squares, eight across.
pub open spec fn mill(k: int) -> (int, int, int) {
    if k == 0 {
        (0, 1, 2)
    } else if k == 1 {
        (3, 4, 5)
    } else if k == 2 {
        (6, 7, 8)
    } else if k == 3 {
        (9, 10, 11)
    } else if k == 4 {
        (12, 13, 14)
    } else if k == 5 {
        (15, 16, 17)
    } else if k == 6 {
        (18, 19, 20)
    } else if k == 7 {
        (21, 22, 23)
    } else if k == 8 {
        (0, 9, 21)
    } else if k == 9 {
        (3, 10, 18)
    } else if k == 10 {
        (6, 11, 15)
    } else if k == 11 {
        (1, 4, 7)
    } else if k == 12 {
        (16, 19, 22)
    } else if k == 13 {
        (8, 12, 17)
    } else if k == 14 {
        (5, 13, 20)
    } else {
        (2, 14, 23)
    }
}

/// The points joined to point `p` by a drawn line.
pub open spec fn adj(p: int) -> Seq<int> {
    if p == 0 {
        seq![1, 9]
    } else if p == 1 {
        seq![0, 2, 4]
    } else if p == 2 {
        seq![1, 14]
    } else if p == 3 {
        seq![4, 10]
    } else if p == 4 {
        seq![3, 5, 1, 7]
    } else if p == 5 {
        seq![4, 13]
    } else if p == 6 {
        seq![7, 11]
    } else if p == 7 {
        seq![6, 8, 4]
    } else if p == 8 {
        seq![7, 12]
    } else if p == 9 {
        seq![0, 21, 10]
    } else if p == 10 {
        seq![9, 11, 3, 18]
    } else if p == 11 {
        seq![10, 6, 15]
    } else if p == 12 {
        seq![8, 17, 13]
    } else if p == 13 {
        seq![12, 14, 5, 20]
    } else if p == 14 {
        seq![13, 2, 23]
    } else if p == 15 {
        seq![16, 11]
    } else if p == 16 {
        seq![15, 17, 19]
    } else if p == 17 {
        seq![16, 12]
    } else if p == 18 {
        seq![19, 10]
    } else if p == 19 {
        seq![18, 20, 16, 22]
    } else if p == 20 {
        seq![19, 13]
    } else if p == 21 {
        seq![9, 22]
    } else if p == 22 {
        seq![21, 23, 19]
    } else {
        seq![22, 14]
    }
}

/// The three points of mill line `k`.
pub fn mill_cells(k: usize) -> (m: (u8, u8, u8))
    requires
        k < 16,
    ensures
        (m.0 as int, m.1 as int, m.2 as int) == mill(k as int),
{
    if k == 0 {
        (0, 1, 2)
    } else if k == 1 {
        (3, 4, 5)
    } else if k == 2 {
        (6, 7, 8)
    } else if k == 3 {
        (9, 10, 11)
    } else if k == 4 {
        (12, 13, 14)
    } else if k == 5 {
        (15, 16, 17)
    } else if k == 6 {
        (18, 19, 20)
    } else if k == 7 {
        (21, 22, 23)
    } else if k == 8 {
        (0, 9, 21)
    } else if k == 9 {
        (3, 10, 18)
    } else if k == 10 {
        (6, 11, 15)
    } else if k == 11 {
        (1, 4, 7)
    } else if k == 12 {
        (16, 19, 22)
    } else if k == 13 {
        (8, 12, 17)
    } else if k == 14 {
        (5, 13, 20)
    } else {
        (2, 14, 23)
    }
}

/// The points joined to point `p` by a drawn line.
pub fn neighbours(p: u8) -> (v: Vec<u8>)
    requires
        p < 24,
    ensures
        v@.len() == adj(p as int).len(),
        forall|i: int| 0 <= i < v@.len() ==> #[trigger] v@[i] as int == adj(p as int)[i],
{
    if p == 0 {
        vec![1, 9]
    } else if p == 1 {
        vec![0, 2, 4]
    } else if p == 2 {
        vec![1, 14]
    } else if p == 3 {
        vec![4, 10]
    } else if p == 4 {
        vec![3, 5, 1, 7]
    } else if p == 5 {
        vec![4, 13]
    } else if p == 6 {
        vec![7, 11]
    } else if p == 7 {
        vec![6, 8, 4]
    } else if p == 8 {
        vec![7, 12]
    } else if p == 9 {
        vec![0, 21, 10]
    } else if p == 10 {
        vec![9, 11, 3, 18]
    } else if p == 11 {
        vec![10, 6, 15]
    } else if p == 12 {
        vec![8, 17, 13]
    } else if p == 13 {
        vec![12, 14, 5, 20]
    } else if p == 14 {
        vec![13, 2, 23]
    } else if p == 15 {
        vec![16, 11]
    } else if p == 16 {
        vec![15, 17, 19]
    } else if p == 17 {
        vec![16, 12]
    } else if p == 18 {
        vec![19, 10]
    } else if p == 19 {
        vec![18, 20, 16, 22]
    } else if p == 20 {
        vec![19, 13]
    } else if p == 21 {
        vec![9, 22]
    } else if p == 22 {
        vec![21, 23, 19]
    } else {
        vec![22, 14]
    }
}

/// Point `point` of `b` lies on a mill line whose three points all hold `owner`.
pub open spec fn milled(b: Seq<i8>, point: int, owner: i8) -> bool {
    exists|k: int|
        0 <= k < 16 && (#[trigger] mill(k).0 == point || mill(k).1 == point || mill(k).2 == point) && b[mill(k).0]
            == owner && b[mill(k).1] == owner && b[mill(k).2] == owner
}

/// The points among the first `k` that hold `e`.
pub open spec fn owned_upto(b: Seq<i8>, e: i8, k: int) -> Seq<u8>
    decreases k,
{
    if k <= 0 {
        seq![]
    } else {
        owned_upto(b, e, k - 1) + if b[k - 1] == e { seq![(k - 1) as u8] } else { seq![] }
    }
}

/// The points among the first `k` that hold `e` and stand in no mill of `e`.
pub open spec fn free_upto(b: Seq<i8>, e: i8, k: int) -> Seq<u8>
    decreases k,
{
    if k <= 0 {
        seq![]
    } else {
        free_upto(b, e, k - 1) + if b[k - 1] == e && !milled(b, k - 1, e) { seq![(k - 1) as u8] } else { seq![] }
    }
}

/// The enemy men that a mill may remove: those outside a mill, or every enemy man
/// when all of them stand in mills.
pub open spec fn removable_spec(b: Seq<i8>, e: i8) -> Seq<u8> {
    if free_upto(b, e, 24).len() == 0 {
        owned_upto(b, e, 24)
    } else {
        free_upto(b, e, 24)
    }
}

/// The board once `me` has placed on `to` (from `PLACE`) or slid from `from` to `to`.
pub open spec fn landed(b: Seq<i8>, from: u8, to: u8, me: i8) -> Seq<i8> {
    (if from == PLACE { b } else { b.update(from as int, -1i8) }).update(to as int, me)
}

/// The moves that land a man of `me` on `to`: one without removal if no mill is
/// completed (or nothing can be removed), else one per removable enemy man.
pub open spec fn landing(b: Seq<i8>, from: u8, to: u8, me: i8) -> Seq<NmMove> {
    let b2 = landed(b, from, to, me);
    let vs = removable_spec(b2, (1 - me) as i8);
    if milled(b2, to as int, me) && vs.len() > 0 {
        Seq::new(vs.len(), |i: int| NmMove { from, to, victim: vs[i] })
    } else {
        seq![NmMove { from, to, victim: NONE }]
    }
}

/// Placements on the empty points among the first `k`.
pub open spec fn places_upto(b: Seq<i8>, me: i8, k: int) -> Seq<NmMove>
    decreases k,
{
    if k <= 0 {
        seq![]
    } else {
        places_upto(b, me, k - 1) + if b[k - 1] == -1 { landing(b, PLACE, (k - 1) as u8, me) } else { seq![] }
    }
}

/// Flights from `from` to the empty points among the first `k`.
pub open spec fn flights_upto(b: Seq<i8>, me: i8, from: int, k: int) -> Seq<NmMove>
    decreases k,
{
    if k <= 0 {
        seq![]
    } else {
        flights_upto(b, me, from, k - 1) + if b[k - 1] == -1 {
            landing(b, from as u8, (k - 1) as u8, me)
        } else {
            seq![]
        }
    }
}

/// Slides from `from` to the empty points among its first `j` neighbours.
pub open spec fn steps_upto(b: Seq<i8>, me: i8, from: int, j: int) -> Seq<NmMove>
    decreases j,
{
    if j <= 0 {
        seq![]
    } else {
        steps_upto(b, me, from, j - 1) + if b[adj(from)[j - 1]] == -1 {
            landing(b, from as u8, adj(from)[j - 1] as u8, me)
        } else {
            seq![]
        }
    }
}

/// Moves of the men of `me` on the first `k` points, flying when `fly`.
pub open spec fn slides_upto(b: Seq<i8>, me: i8, fly: bool, k: int) -> Seq<NmMove>
    decreases k,
{
    if k <= 0 {
        seq![]
    } else {
        slides_upto(b, me, fly, k - 1) + if b[k - 1] == me {
            if fly {
                flights_upto(b, me, k - 1, 24)
            } else {
                steps_upto(b, me, k - 1, adj(k - 1).len() as int)
            }
        } else {
            seq![]
        }
    }
}

proof fn lemma_adj_on_board(p: int)
    requires
        0 <= p < 24,
    ensures
        adj(p).len() <= 4,
        forall|i: int| 0 <= i < adj(p).len() ==> 0 <= #[trigger] adj(p)[i] < 24,
{
}

proof fn lemma_mill_on_board(k: int)
    requires
        0 <= k < 16,
    ensures
        0 <= mill(k).0 < 24,
        0 <= mill(k).1 < 24,
        0 <= mill(k).2 < 24,
{
}

/// Whether landing on `point` completes a mill of `owner` on `board`.
pub fn forms_mill(board: &[i8; 24], point: u8, owner: i8) -> (r: bool)
    ensures
        r == milled(board@, point as int, owner),
{
    let mut k: usize = 0;
    while k < 16
        invariant
            k <= 16,
            forall|j: int|
                0 <= j < k ==> !((#[trigger] mill(j).0 == point || mill(j).1 == point || mill(j).2 == point)
                    && board@[mill(j).0] == owner && board@[mill(j).1] == owner && board@[mill(j).2] == owner),
        decreases 16 - k,
    {
        let (a, b, c) = mill_cells(k);
        proof {
            lemma_mill_on_board(k as int);
        }
        if (a == point || b == point || c == point) && board[a as usize] == owner && board[b as usize] == owner
            && board[c as usize] == owner {
            proof {
                assert(mill(k as int).0 == point || mill(k as int).1 == point || mill(k as int).2 == point);
            }
            return true;
        }
        k += 1;
    }
    false
}

/// The enemy men that a mill may remove from `board`, in point order.
pub fn removable(board: &[i8; 24], enemy: i8) -> (v: Vec<u8>)
    ensures
        v@ == removable_spec(board@, enemy),
{
    let mut all: Vec<u8> = Vec::new();
    let mut free: Vec<u8> = Vec::new();
    let mut p: usize = 0;
    while p < 24
        invariant
            p <= 24,
            all@ == owned_upto(board@, enemy, p as int),
            free@ == free_upto(board@, enemy, p as int),
        decreases 24 - p,
    {
        if board[p] == enemy {
            all.push(p as u8);
            if !forms_mill(board, p as u8, enemy) {
                free.push(p as u8);
            }
        }
        p += 1;
    }
    if free.len() == 0 {
        all
    } else {
        free
    }
}

#[derive(Clone, Debug)]
pub struct NineMorris {
    /// -1 empty, else the owner 0 or 1.
    pub board: [i8; 24],
    pub current: u8,
    /// Men placed so far, per player.
    pub placed: [u8; 2],
    /// Men on the board, per player.
    pub on_board: [u8; 2],
    pub men_per_player: u8,
    pub flying: bool,
    /// Place or slide while men remain in hand.
    pub lasker: bool,
    /// Plies since the last placement or capture.
    pub progress_ply: u32,
}

impl NineMorris {
    pub open spec fn wf(&self) -> bool {
        self.current < 2
    }

    pub open spec fn placing(&self) -> bool {
        self.placed@[self.current as int] < self.men_per_player
    }

    /// Placements while the side to move has men in hand; moves of its men once
    /// the hand is empty, or also before in the Lasker variant while it has a man
    /// on the board. Flying needs the option, an empty hand and exactly three men.
    pub open spec fn gen_spec(&self) -> Seq<NmMove> {
        let me = self.current as i8;
        let on = self.on_board@[self.current as int];
        let fly = self.flying && on == 3 && !self.placing();
        (if self.placing() { places_upto(self.board@, me, 24) } else { seq![] }) + if !self.placing() || (self.lasker
            && on > 0) {
            slides_upto(self.board@, me, fly, 24)
        } else {
            seq![]
        }
    }

    /// A draw after the stall cap; a loss for the side to move once it has placed
    /// all its men and has fewer than three left, or when it has no move.
    pub open spec fn term_spec(&self) -> Option<Outcome> {
        let me = self.current as int;
        if self.progress_ply >= DRAW_PLY_CAP {
            Some(Outcome::Draw)
        } else if self.placed@[me] == self.men_per_player && self.on_board@[me] < 3 {
            Some(Outcome::Loss)
        } else if self.gen_spec().len() == 0 {
            Some(Outcome::Loss)
        } else {
            None
        }
    }

    /// An empty board, the first player to place, `men_per_player` clamped to 3..=12.
    pub fn new(men_per_player: u8, flying: bool, lasker: bool) -> (g: Self)
        ensures
            g.wf(),
            g.current == 0,
            g.men_per_player == (if men_per_player < 3 { 3 } else if men_per_player > 12 { 12 } else { men_per_player }),
            g.flying == flying,
            g.lasker == lasker,
            g.placed@ == seq![0u8, 0u8],
            g.on_board@ == seq![0u8, 0u8],
            g.progress_ply == 0,
            forall|i: int| 0 <= i < 24 ==> #[trigger] g.board@[i] == -1,
    {
        let men = if men_per_player < 3 { 3 } else if men_per_player > 12 { 12 } else { men_per_player };
        NineMorris {
            board: [-1; 24],
            current: 0,
            placed: [0, 0],
            on_board: [0, 0],
            men_per_player: men,
            flying,
            lasker,
            progress_ply: 0,
        }
    }

    pub fn in_placement(&self) -> (b: bool)
        requires
            self.wf(),
        ensures
            b == self.placing(),
    {
        self.placed[self.current as usize] < self.men_per_player
    }

    pub fn current_player(&self) -> (p: u8)
        ensures
            p == self.current,
    {
        self.current
    }

    /// Append the moves that land a man of `me` on `to`.
    fn push_moves(&self, v: &mut Vec<NmMove>, from: u8, to: u8, me: i8)
        requires
            from == PLACE || from < 24,
            to < 24,
            me == 0 || me == 1,
        ensures
            final(v)@ == old(v)@ + landing(self.board@, from, to, me),
    {
        let mut b = self.board;
        if from != PLACE {
            b[from as usize] = -1;
        }
        b[to as usize] = me;
        proof {
            assert(b@ =~= landed(self.board@, from, to, me));
        }
        let ghost v0 = v@;
        if forms_mill(&b, to, me) {
            let victims = removable(&b, 1 - me);
            if victims.len() == 0 {
                v.push(NmMove { from, to, victim: NONE });
            } else {
                let mut i: usize = 0;
                while i < victims.len()
                    invariant
                        i <= victims@.len(),
                        v@ == v0 + Seq::new(i as nat, |j: int| NmMove { from, to, victim: victims@[j] }),
                    decreases victims@.len() - i,
                {
                    v.push(NmMove { from, to, victim: victims[i] });
                    i += 1;
                    proof {
                        assert(v@ =~= v0 + Seq::new(i as nat, |j: int| NmMove { from, to, victim: victims@[j] }));
                    }
                }
            }
        } else {
            v.push(NmMove { from, to, victim: NONE });
        }
        proof {
            assert(v@ =~= v0 + landing(self.board@, from, to, me));
        }
    }

    /// The legal moves of the side to move (the game being over is not considered).
    pub fn gen(&self) -> (v: Vec<NmMove>)
        requires
            self.wf(),
        ensures
            v@ == self.gen_spec(),
    {
        let mut v: Vec<NmMove> = Vec::new();
        let me = self.current as i8;
        let placing = self.in_placement();
        let on_board = self.on_board[self.current as usize];
        if placing {
            let mut to: usize = 0;
            while to < 24
                invariant
                    self.wf(),
                    me == self.current as i8,
                    to <= 24,
                    v@ == places_upto(self.board@, me, to as int),
                decreases 24 - to,
            {
                if self.board[to] == -1 {
                    self.push_moves(&mut v, PLACE, to as u8, me);
                }
                to += 1;
            }
        }
        let ghost base = v@;
        if !placing || (self.lasker && on_board > 0) {
            let can_fly = self.flying && on_board == 3 && !placing;
            let mut from: usize = 0;
            while from < 24
                invariant
                    self.wf(),
                    me == self.current as i8,
                    from <= 24,
                    v@ == base + slides_upto(self.board@, me, can_fly, from as int),
                decreases 24 - from,
            {
                if self.board[from] == me {
                    let ghost before = v@;
                    if can_fly {
                        let mut to: usize = 0;
                        while to < 24
                            invariant
                                self.wf(),
                                me == self.current as i8,
                                from < 24,
                                to <= 24,
                                v@ == before + flights_upto(self.board@, me, from as int, to as int),
                            decreases 24 - to,
                        {
                            if self.board[to] == -1 {
                                self.push_moves(&mut v, from as u8, to as u8, me);
                            }
                            proof {
                                assert(v@ =~= before + flights_upto(self.board@, me, from as int, to + 1));
                            }
                            to += 1;
                        }
                    } else {
                        let nbs = neighbours(from as u8);
                        proof {
                            lemma_adj_on_board(from as int);
                        }
                        let mut j: usize = 0;
                        while j < nbs.len()
                            invariant
                                self.wf(),
                                me == self.current as i8,
                                from < 24,
                                nbs@.len() == adj(from as int).len(),
                                forall|i: int| 0 <= i < nbs@.len() ==> #[trigger] nbs@[i] as int == adj(from as int)[i],
                                forall|i: int| 0 <= i < adj(from as int).len() ==> 0 <= #[trigger] adj(from as int)[i] < 24,
                                j <= nbs@.len(),
                                v@ == before + steps_upto(self.board@, me, from as int, j as int),
                            decreases nbs@.len() - j,
                        {
                            let to = nbs[j];
                            if self.board[to as usize] == -1 {
                                self.push_moves(&mut v, from as u8, to, me);
                            }
                            proof {
                                assert(v@ =~= before + steps_upto(self.board@, me, from as int, j + 1));
                            }
                            j += 1;
                        }
                    }
                }
                proof {
                    assert(v@ =~= base + slides_upto(self.board@, me, can_fly, from + 1));
                }
                from += 1;
            }
        }
        proof {
            assert(v@ =~= self.gen_spec());
        }
        v
    }

    pub fn available_moves(&self) -> (v: Vec<NmMove>)
        requires
            self.wf(),
        ensures
            v@ == self.gen_spec(),
    {
        self.gen()
    }

    pub fn term(&self) -> (t: Option<Outcome>)
        requires
            self.wf(),
        ensures
            t == self.term_spec(),
    {
        let me = self.current as usize;
        if self.progress_ply >= DRAW_PLY_CAP {
            return Some(Outcome::Draw);
        }
        if self.placed[me] == self.men_per_player && self.on_board[me] < 3 {
            return Some(Outcome::Loss);
        }
        if self.gen().len() == 0 {
            return Some(Outcome::Loss);
        }
        None
    }

    pub fn terminal_value(&self) -> (t: Option<Outcome>)
        requires
            self.wf(),
        ensures
            t == self.term_spec(),
    {
        self.term()
    }

    pub fn is_terminal(&self) -> (b: bool)
        requires
            self.wf(),
        ensures
            b == self.term_spec() is Some,
    {
        self.term().is_some()
    }

    /// The position after the side to move plays `m`: the man lands, the victim
    /// goes, the counters move and the turn passes.
    pub open spec fn moved(&self, next: NineMorris, m: NmMove) -> bool {
        let cur = self.current as int;
        let place = m.from == PLACE;
        let take = m.victim != NONE;
        let b1 = landed(self.board@, m.from, m.to, cur as i8);
        &&& next.board@ == (if take { b1.update(m.victim as int, -1i8) } else { b1 })
        &&& next.placed@ == (if place { self.placed@.update(cur, (self.placed@[cur] + 1) as u8) } else { self.placed@ })
        &&& next.on_board@ == ({
            let o1 = if place { self.on_board@.update(cur, (self.on_board@[cur] + 1) as u8) } else { self.on_board@ };
            if take { o1.update(1 - cur, (o1[1 - cur] - 1) as u8) } else { o1 }
        })
        &&& next.progress_ply == (if place || take { 0 } else { self.progress_ply + 1 })
        &&& next.current == 1 - self.current
        &&& next.men_per_player == self.men_per_player
        &&& next.flying == self.flying
        &&& next.lasker == self.lasker
    }

    pub fn make_move(&mut self, m: &NmMove)
        requires
            old(self).wf(),
            m.to < 24,
            m.from == PLACE || m.from < 24,
            m.victim == NONE || m.victim < 24,
            m.from == PLACE ==> old(self).placed@[old(self).current as int] < 255 && old(self).on_board@[old(
                self,
            ).current as int] < 255,
            m.victim != NONE ==> old(self).on_board@[1 - old(self).current] > 0,
            m.from != PLACE && m.victim == NONE ==> old(self).progress_ply < u32::MAX,
        ensures
            final(self).wf(),
            old(self).moved(*final(self), *m),
    {
        let me = self.current as i8;
        let cur = self.current as usize;
        let enemy = 1 - cur;
        let mut progress = false;
        if m.from == PLACE {
            self.board[m.to as usize] = me;
            self.placed[cur] = self.placed[cur] + 1;
            self.on_board[cur] = self.on_board[cur] + 1;
            progress = true;
        } else {
            self.board[m.from as usize] = -1;
            self.board[m.to as usize] = me;
        }
        proof {
            assert(self.board@ =~= landed(old(self).board@, m.from, m.to, me));
        }
        if m.victim != NONE {
            self.board[m.victim as usize] = -1;
            self.on_board[enemy] = self.on_board[enemy] - 1;
            progress = true;
        }
        if progress {
            self.progress_ply = 0;
        } else {
            self.progress_ply = self.progress_ply + 1;
        }
        self.current = 1 - self.current;
    }
}

/// A point shown as `X`, `O` or a space.
pub open spec fn point_char(v: i8) -> char {
    if v == 0 {
        'X'
    } else if v == 1 {
        'O'
    } else {
        ' '
    }
}

/// A placement reads `p<to>`, a slide `<from>-<to>`; a removal appends `x<victim>`.
pub open spec fn move_text(m: NmMove) -> Seq<char> {
    (if m.from == PLACE {
        seq!['p'] + dec(m.to as nat)
    } else {
        dec(m.from as nat) + seq!['-'] + dec(m.to as nat)
    }) + if m.victim != NONE {
        seq!['x'] + dec(m.victim as nat)
    } else {
        seq![]
    }
}

/// The texts of `ms`, joined by commas.
pub open spec fn texts(ms: Seq<NmMove>) -> Seq<char>
    decreases ms.len(),
{
    if ms.len() == 0 {
        seq![]
    } else if ms.len() == 1 {
        move_text(ms[0])
    } else {
        texts(ms.drop_last()) + seq![','] + move_text(ms.last())
    }
}

/// `i` is the first occurrence of `ch` in `t`.
pub open spec fn first_of(t: Seq<char>, ch: char, i: int) -> bool {
    &&& 0 <= i < t.len()
    &&& t[i] == ch
    &&& forall|j: int| 0 <= j < i ==> t[j] != ch
}

/// The origin and target of a move text without its removal part: `p<to>` or
/// `<from>-<to>` (split at the first `-`), numbers being bytes.
pub open spec fn parse_main(t: Seq<char>) -> Option<(u8, u8)> {
    if t.len() > 0 && t[0] == 'p' {
        match parse_uint(t.drop_first(), 255) {
            Some(v) => Some((PLACE, v as u8)),
            None => None,
        }
    } else if exists|i: int| first_of(t, '-', i) {
        let i = choose|i: int| first_of(t, '-', i);
        match (parse_uint(t.subrange(0, i), 255), parse_uint(t.subrange(i + 1, t.len() as int), 255)) {
            (Some(a), Some(b)) => Some((a as u8, b as u8)),
            _ => None,
        }
    } else {
        None
    }
}

/// What a move text names: the part before the first `x` as above, the byte after
/// it as the man removed; the target must be a point of the board.
pub open spec fn parse_move_spec(t: Seq<char>) -> Option<NmMove> {
    let (main, victim) = if exists|i: int| first_of(t, 'x', i) {
        let i = choose|i: int| first_of(t, 'x', i);
        (t.subrange(0, i), parse_uint(t.subrange(i + 1, t.len() as int), 255))
    } else {
        (t, Some(NONE as int))
    };
    match (parse_main(main), victim) {
        (Some((f, to)), Some(v)) => if to < 24 {
            Some(NmMove { from: f, to, victim: v as u8 })
        } else {
            None
        },
        _ => None,
    }
}

/// The first occurrence of `ch` in `cs[lo..hi]`, if any.
fn find_char(cs: &Vec<char>, lo: usize, hi: usize, ch: char) -> (r: Option<usize>)
    requires
        lo <= hi <= cs@.len(),
    ensures
        r matches Some(i) ==> lo <= i < hi && first_of(cs@.subrange(lo as int, hi as int), ch, i - lo),
        r is None ==> forall|i: int| !first_of(cs@.subrange(lo as int, hi as int), ch, i),
{
    let ghost sub = cs@.subrange(lo as int, hi as int);
    let mut i = lo;
    while i < hi
        invariant
            lo <= i <= hi <= cs@.len(),
            sub == cs@.subrange(lo as int, hi as int),
            forall|j: int| lo <= j < i ==> cs@[j] != ch,
        decreases hi - i,
    {
        if cs[i] == ch {
            proof {
                assert forall|j: int| 0 <= j < i - lo implies sub[j] != ch by {
                    assert(sub[j] == cs@[lo + j]);
                }
            }
            return Some(i);
        }
        i += 1;
    }
    proof {
        assert forall|k: int| !first_of(sub, ch, k) by {
            if first_of(sub, ch, k) {
                assert(sub[k] == cs@[lo + k]);
            }
        }
    }
    None
}

fn parse_main_exec(cs: &Vec<char>, lo: usize, hi: usize) -> (r: Option<(u8, u8)>)
    requires
        lo <= hi <= cs@.len(),
    ensures
        r == parse_main(cs@.subrange(lo as int, hi as int)),
{
    let ghost t = cs@.subrange(lo as int, hi as int);
    if lo < hi && cs[lo] == 'p' {
        proof {
            assert(cs@.subrange(lo + 1, hi as int) =~= t.drop_first());
        }
        return match parse_uint_range(cs, lo + 1, hi, 255) {
            Some(v) => Some((PLACE, v as u8)),
            None => None,
        };
    }
    match find_char(cs, lo, hi, '-') {
        None => None,
        Some(i) => {
            proof {
                assert forall|k: int| first_of(t, '-', k) implies k == i - lo by {
                    if k < i - lo {
                        assert(t[k] != '-');
                    }
                    if k > i - lo {
                        assert(t[i - lo] == '-');
                    }
                }
                assert(cs@.subrange(lo as int, i as int) =~= t.subrange(0, i - lo));
                assert(cs@.subrange(i + 1, hi as int) =~= t.subrange(i - lo + 1, t.len() as int));
            }
            let a = parse_uint_range(cs, lo, i, 255);
            let b = parse_uint_range(cs, i + 1, hi, 255);
            match (a, b) {
                (Some(x), Some(y)) => Some((x as u8, y as u8)),
                _ => None,
            }
        },
    }
}

/// Parse a move text.
pub fn parse_move(mov: &str) -> (r: Option<NmMove>)
    ensures
        r == parse_move_spec(mov@),
{
    let cs = chars_of(mov);
    let n = cs.len();
    proof {
        assert(cs@.subrange(0, n as int) =~= mov@);
    }
    let (end, victim): (usize, u8) = match find_char(&cs, 0, n, 'x') {
        Some(i) => {
            proof {
                assert forall|k: int| first_of(mov@, 'x', k) implies k == i by {
                    if k < i {
                        assert(mov@[k] != 'x');
                    }
                    if k > i {
                        assert(mov@[i as int] == 'x');
                    }
                }
                assert(cs@.subrange(0, i as int) =~= mov@.subrange(0, i as int));
            }
            match parse_uint_range(&cs, i + 1, n, 255) {
                Some(v) => (i, v as u8),
                None => {
                    return None;
                },
            }
        },
        None => (n, NONE),
    };
    proof {
        assert(cs@.subrange(0, end as int) =~= mov@.subrange(0, end as int));
        if end == n {
            assert(mov@.subrange(0, n as int) =~= mov@);
        }
    }
    match parse_main_exec(&cs, 0, end) {
        Some((f, to)) => {
            if to >= 24 {
                None
            } else {
                Some(NmMove { from: f, to, victim })
            }
        },
        None => None,
    }
}

/// The table of a new game as the front end asks for it: the men per player read as
/// a byte (the game clamps it), flying and the Lasker variant on for nonzero flags.
pub fn settings(men_per_player: u32, flying: u32, lasker: u32) -> (r: (u8, bool, bool))
    ensures
        r.0 == men_per_player as u8,
        r.1 == (flying != 0),
        r.2 == (lasker != 0),
{
    (men_per_player as u8, flying != 0, lasker != 0)
}

impl NineMorris {
    /// The board and the phase: 24 point characters, `|`, then `place:` with the men
    /// each player still has to place while either has some, `slide` afterwards.
    pub open spec fn board_text(&self) -> Seq<char> {
        let men = self.men_per_player;
        Seq::new(24, |i: int| point_char(self.board@[i])) + seq!['|'] + if self.placed@[0] < men || self.placed@[1]
            < men {
            seq!['p', 'l', 'a', 'c', 'e', ':'] + dec((men - self.placed@[0]) as nat) + seq![','] + dec(
                (men - self.placed@[1]) as nat,
            )
        } else {
            seq!['s', 'l', 'i', 'd', 'e']
        }
    }

    pub fn board_string(&self) -> (s: String)
        requires
            self.placed@[0] < self.men_per_player || self.placed@[1] < self.men_per_player ==> self.placed@[0]
                <= self.men_per_player && self.placed@[1] <= self.men_per_player,
        ensures
            s@ == self.board_text(),
    {
        let mut s = String::new();
        let mut i: usize = 0;
        while i < 24
            invariant
                i <= 24,
                s@ == Seq::new(i as nat, |j: int| point_char(self.board@[j])),
            decreases 24 - i,
        {
            let v = self.board[i];
            push_char(&mut s, if v == 0 { 'X' } else if v == 1 { 'O' } else { ' ' });
            i += 1;
            assert(s@ =~= Seq::new(i as nat, |j: int| point_char(self.board@[j])));
        }
        push_char(&mut s, '|');
        let men = self.men_per_player;
        if self.placed[0] < men || self.placed[1] < men {
            push_str(&mut s, "place:");
            push_dec(&mut s, (men - self.placed[0]) as u64);
            push_char(&mut s, ',');
            push_dec(&mut s, (men - self.placed[1]) as u64);
            proof {
                reveal_strlit("place:");
            }
        } else {
            push_str(&mut s, "slide");
            proof {
                reveal_strlit("slide");
            }
        }
        proof {
            assert(s@ =~= self.board_text());
        }
        s
    }

    /// The winner counted from 1, `Draw`, or empty while the game runs.
    pub fn result_string(&self) -> (s: String)
        requires
            self.wf(),
        ensures
            s@ == (match self.term_spec() {
                Some(Outcome::Win) => dec((self.current + 1) as nat),
                Some(Outcome::Loss) => dec((1 - self.current + 1) as nat),
                Some(Outcome::Draw) => seq!['D', 'r', 'a', 'w'],
                None => Seq::<char>::empty(),
            }),
    {
        let mut s = String::new();
        match self.term() {
            Some(Outcome::Win) => push_dec(&mut s, self.current as u64 + 1),
            Some(Outcome::Loss) => push_dec(&mut s, (1 - self.current) as u64 + 1),
            Some(Outcome::Draw) => {
                push_str(&mut s, "Draw");
                proof {
                    reveal_strlit("Draw");
                }
            },
            None => {},
        }
        s
    }

    /// The legal moves as texts, joined by commas.
    pub fn legal_moves_string(&self) -> (s: String)
        requires
            self.wf(),
        ensures
            s@ == texts(self.gen_spec()),
    {
        let ms = self.available_moves();
        let mut s = String::new();
        let mut i: usize = 0;
        while i < ms.len()
            invariant
                i <= ms@.len(),
                s@ == texts(ms@.take(i as int)),
            decreases ms@.len() - i,
        {
            if i > 0 {
                push_char(&mut s, ',');
            }
            let m = ms[i];
            if m.from == PLACE {
                push_char(&mut s, 'p');
                push_dec(&mut s, m.to as u64);
            } else {
                push_dec(&mut s, m.from as u64);
                push_char(&mut s, '-');
                push_dec(&mut s, m.to as u64);
            }
            if m.victim != NONE {
                push_char(&mut s, 'x');
                push_dec(&mut s, m.victim as u64);
            }
            proof {
                let t = ms@.take(i + 1);
                assert(t.drop_last() =~= ms@.take(i as int));
                assert(t.last() == ms@[i as int]);
                if i == 0 {
                    assert(texts(ms@.take(0)) =~= Seq::<char>::empty());
                }
                assert(s@ =~= texts(t));
            }
            i += 1;
        }
        proof {
            assert(ms@.take(ms@.len() as int) =~= ms@);
        }
        s
    }
}

/// Points among the first `k` of `b` that hold `v`.
pub open spec fn count(b: Seq<i8>, v: i8, k: int) -> int
    decreases k,
{
    if k <= 0 {
        0
    } else {
        count(b, v, k - 1) + if b[k - 1] == v { 1int } else { 0 }
    }
}

proof fn lemma_count_update(b: Seq<i8>, i: int, x: i8, v: i8, k: int)
    requires
        0 <= i < b.len(),
        0 <= k <= b.len(),
    ensures
        count(b.update(i, x), v, k) == count(b, v, k) - (if i < k && b[i] == v { 1int } else { 0 }) + (if i < k && x
            == v { 1int } else { 0 }),
    decreases k,
{
    if k > 0 {
        lemma_count_update(b, i, x, v, k - 1);
    }
}

proof fn lemma_count_bounds(b: Seq<i8>, v: i8, k: int, i: int)
    requires
        0 <= i < k <= b.len(),
        b[i] == v,
    ensures
        1 <= count(b, v, k) <= k,
    decreases k,
{
    lemma_count_le(b, v, k - 1);
    if i < k - 1 {
        lemma_count_bounds(b, v, k - 1, i);
    }
}

proof fn lemma_count_le(b: Seq<i8>, v: i8, k: int)
    ensures
        0 <= count(b, v, k) <= (if k > 0 { k } else { 0 }),
    decreases k,
{
    if k > 0 {
        lemma_count_le(b, v, k - 1);
    }
}

proof fn lemma_owned(b: Seq<i8>, e: i8, k: int, i: int)
    requires
        0 <= k <= 24,
        0 <= i < owned_upto(b, e, k).len(),
    ensures
        (owned_upto(b, e, k)[i] as int) < k,
        b[owned_upto(b, e, k)[i] as int] == e,
    decreases k,
{
    if i < owned_upto(b, e, k - 1).len() {
        lemma_owned(b, e, k - 1, i);
    }
}

proof fn lemma_free(b: Seq<i8>, e: i8, k: int, i: int)
    requires
        0 <= k <= 24,
        0 <= i < free_upto(b, e, k).len(),
    ensures
        (free_upto(b, e, k)[i] as int) < k,
        b[free_upto(b, e, k)[i] as int] == e,
        !milled(b, free_upto(b, e, k)[i] as int, e),
    decreases k,
{
    if i < free_upto(b, e, k - 1).len() {
        lemma_free(b, e, k - 1, i);
    }
}

/// The removal rule: a mill removes an enemy man, and one that stands in a mill
/// only when every enemy man does.
pub proof fn lemma_removal_spares_mills(b: Seq<i8>, e: i8, i: int)
    requires
        0 <= i < removable_spec(b, e).len(),
    ensures
        (removable_spec(b, e)[i] as int) < 24,
        b[removable_spec(b, e)[i] as int] == e,
        milled(b, removable_spec(b, e)[i] as int, e) ==> forall|q: int|
            0 <= q < 24 && #[trigger] b[q] == e ==> milled(b, q, e),
{
    if free_upto(b, e, 24).len() == 0 {
        lemma_owned(b, e, 24, i);
        assert forall|q: int| 0 <= q < 24 && #[trigger] b[q] == e implies milled(b, q, e) by {
            if !milled(b, q, e) {
                lemma_free_has(b, e, 24, q);
            }
        }
    } else {
        lemma_free(b, e, 24, i);
    }
}

proof fn lemma_free_has(b: Seq<i8>, e: i8, k: int, q: int)
    requires
        0 <= q < k <= 24,
        b[q] == e,
        !milled(b, q, e),
    ensures
        free_upto(b, e, k).len() > 0,
    decreases k,
{
    if q < k - 1 {
        lemma_free_has(b, e, k - 1, q);
    }
}

/// A move that lands on `to` from `from` keeps both, and removes nothing or an enemy
/// man of the board after landing.
proof fn lemma_landing(b: Seq<i8>, from: u8, to: u8, me: i8, i: int)
    requires
        0 <= i < landing(b, from, to, me).len(),
        b.len() == 24,
        (to as int) < 24,
        me == 0 || me == 1,
    ensures
        landing(b, from, to, me)[i].from == from,
        landing(b, from, to, me)[i].to == to,
        landing(b, from, to, me)[i].victim != NONE ==> (landing(b, from, to, me)[i].victim as int) < 24 && landed(
            b,
            from,
            to,
            me,
        )[landing(b, from, to, me)[i].victim as int] == 1 - me,
{
    let b2 = landed(b, from, to, me);
    let vs = removable_spec(b2, (1 - me) as i8);
    if milled(b2, to as int, me) && vs.len() > 0 {
        lemma_removal_spares_mills(b2, (1 - me) as i8, i);
    }
}

/// Facts about a legal move: where it lands and from where, and what it removes.
pub open spec fn sound_move(b: Seq<i8>, me: i8, m: NmMove) -> bool {
    &&& (m.to as int) < 24
    &&& b[m.to as int] == -1
    &&& m.from == PLACE || ((m.from as int) < 24 && b[m.from as int] == me)
    &&& m.victim != NONE ==> (m.victim as int) < 24 && landed(b, m.from, m.to, me)[m.victim as int] == 1 - me
}

proof fn lemma_places(b: Seq<i8>, me: i8, k: int, i: int)
    requires
        b.len() == 24,
        me == 0 || me == 1,
        0 <= k <= 24,
        0 <= i < places_upto(b, me, k).len(),
    ensures
        sound_move(b, me, places_upto(b, me, k)[i]),
        places_upto(b, me, k)[i].from == PLACE,
    decreases k,
{
    let prev = places_upto(b, me, k - 1);
    if i < prev.len() {
        lemma_places(b, me, k - 1, i);
    } else {
        lemma_landing(b, PLACE, (k - 1) as u8, me, i - prev.len());
    }
}

proof fn lemma_flights(b: Seq<i8>, me: i8, from: int, k: int, i: int)
    requires
        b.len() == 24,
        0 <= from < 24,
        b[from] == me,
        me == 0 || me == 1,
        0 <= k <= 24,
        0 <= i < flights_upto(b, me, from, k).len(),
    ensures
        sound_move(b, me, flights_upto(b, me, from, k)[i]),
        flights_upto(b, me, from, k)[i].from == from,
    decreases k,
{
    let prev = flights_upto(b, me, from, k - 1);
    if i < prev.len() {
        lemma_flights(b, me, from, k - 1, i);
    } else {
        lemma_landing(b, from as u8, (k - 1) as u8, me, i - prev.len());
    }
}

proof fn lemma_steps(b: Seq<i8>, me: i8, from: int, j: int, i: int)
    requires
        b.len() == 24,
        0 <= from < 24,
        b[from] == me,
        me == 0 || me == 1,
        0 <= j <= adj(from).len(),
        0 <= i < steps_upto(b, me, from, j).len(),
    ensures
        sound_move(b, me, steps_upto(b, me, from, j)[i]),
        steps_upto(b, me, from, j)[i].from == from,
    decreases j,
{
    lemma_adj_on_board(from);
    let prev = steps_upto(b, me, from, j - 1);
    if i < prev.len() {
        lemma_steps(b, me, from, j - 1, i);
    } else {
        lemma_landing(b, from as u8, adj(from)[j - 1] as u8, me, i - prev.len());
    }
}

proof fn lemma_slides(b: Seq<i8>, me: i8, fly: bool, k: int, i: int)
    requires
        b.len() == 24,
        me == 0 || me == 1,
        0 <= k <= 24,
        0 <= i < slides_upto(b, me, fly, k).len(),
    ensures
        sound_move(b, me, slides_upto(b, me, fly, k)[i]),
        slides_upto(b, me, fly, k)[i].from != PLACE,
    decreases k,
{
    let prev = slides_upto(b, me, fly, k - 1);
    if i < prev.len() {
        lemma_slides(b, me, fly, k - 1, i);
    } else if fly {
        lemma_flights(b, me, k - 1, 24, i - prev.len());
    } else {
        lemma_steps(b, me, k - 1, adj(k - 1).len() as int, i - prev.len());
    }
}

impl NineMorris {
    /// The men on the board match the counters.
    pub open spec fn counted(&self) -> bool {
        &&& count(self.board@, 0, 24) == self.on_board@[0]
        &&& count(self.board@, 1, 24) == self.on_board@[1]
    }

    /// Every legal move lands on an empty point, from a man of the side to move when
    /// it slides, and removes an enemy man if any; placements come only while men
    /// remain in hand.
    pub proof fn lemma_legal_moves_are_sound(&self, m: NmMove)
        requires
            self.wf(),
            self.gen_spec().contains(m),
        ensures
            sound_move(self.board@, self.current as i8, m),
            m.from == PLACE ==> self.placing(),
    {
        let me = self.current as i8;
        let on = self.on_board@[self.current as int];
        let fly = self.flying && on == 3 && !self.placing();
        let ps = if self.placing() { places_upto(self.board@, me, 24) } else { seq![] };
        let ss = if !self.placing() || (self.lasker && on > 0) { slides_upto(self.board@, me, fly, 24) } else { seq![] };
        let i = choose|i: int| 0 <= i < self.gen_spec().len() && self.gen_spec()[i] == m;
        assert(self.gen_spec() == ps + ss);
        if i < ps.len() {
            lemma_places(self.board@, me, 24, i);
        } else {
            lemma_slides(self.board@, me, fly, 24, i - ps.len());
        }
    }
}

/// The men on the board always match the counters: a legal placement adds one man
/// of the mover, a slide moves one, and a removal takes one enemy man.
pub proof fn lemma_men_are_counted(g: NineMorris, m: NmMove, next: NineMorris)
    requires
        g.wf(),
        g.counted(),
        g.gen_spec().contains(m),
        g.moved(next, m),
    ensures
        next.counted(),
{
    g.lemma_legal_moves_are_sound(m);
    let b = g.board@;
    let me = g.current as i8;
    let cur = g.current as int;
    lemma_count_le(b, 0, 24);
    lemma_count_le(b, 1, 24);
    let b0 = if m.from == PLACE { b } else { b.update(m.from as int, -1i8) };
    let b1 = b0.update(m.to as int, me);
    assert(b1 == landed(b, m.from, m.to, me));
    if m.from != PLACE {
        lemma_count_update(b, m.from as int, -1i8, 0, 24);
        lemma_count_update(b, m.from as int, -1i8, 1, 24);
    }
    lemma_count_update(b0, m.to as int, me, 0, 24);
    lemma_count_update(b0, m.to as int, me, 1, 24);
    if m.victim != NONE {
        lemma_count_update(b1, m.victim as int, -1i8, 0, 24);
        lemma_count_update(b1, m.victim as int, -1i8, 1, 24);
        lemma_count_bounds(b1, (1 - me) as i8, 24, m.victim as int);
    }
}

impl NineMorris {
    /// Play the move that `mov` names if it is legal; false, leaving the game
    /// unchanged, otherwise.
    pub fn apply_text(&mut self, mov: &str) -> (ok: bool)
        requires
            old(self).wf(),
            old(self).counted(),
            old(self).progress_ply < u32::MAX,
        ensures
            final(self).wf(),
            final(self).counted(),
            ok == (parse_move_spec(mov@) matches Some(m) && old(self).gen_spec().contains(m)),
            !ok ==> *final(self) == *old(self),
            ok ==> old(self).moved(*final(self), parse_move_spec(mov@)->0),
    {
        let m = match parse_move(mov) {
            Some(m) => m,
            None => {
                return false;
            },
        };
        let moves = self.available_moves();
        let mut found = false;
        let mut i: usize = 0;
        while i < moves.len()
            invariant
                i <= moves@.len(),
                found == exists|j: int| 0 <= j < i && moves@[j] == m,
            decreases moves@.len() - i,
        {
            if moves[i] == m {
                found = true;
            }
            i += 1;
        }
        if !found {
            return false;
        }
        let ghost g0 = *self;
        proof {
            let j = choose|j: int| 0 <= j < moves@.len() && moves@[j] == m;
            assert(g0.gen_spec().contains(m));
            g0.lemma_legal_moves_are_sound(m);
            lemma_count_le(g0.board@, 0, 24);
            lemma_count_le(g0.board@, 1, 24);
            if m.victim != NONE {
                let me = g0.current as i8;
                let b1 = landed(g0.board@, m.from, m.to, me);
                lemma_count_bounds(b1, (1 - me) as i8, 24, m.victim as int);
                let b0 = if m.from == PLACE { g0.board@ } else { g0.board@.update(m.from as int, -1i8) };
                if m.from != PLACE {
                    lemma_count_update(g0.board@, m.from as int, -1i8, (1 - me) as i8, 24);
                }
                lemma_count_update(b0, m.to as int, me, (1 - me) as i8, 24);
            }
        }
        self.make_move(&m);
        proof {
            lemma_men_are_counted(g0, m, *self);
        }
        true
    }
}

/// The text of a move.
pub fn move_string(m: &NmMove) -> (s: String)
    ensures
        s@ == move_text(*m),
{
    let mut s = String::new();
    if m.from == PLACE {
        push_char(&mut s, 'p');
        push_dec(&mut s, m.to as u64);
    } else {
        push_dec(&mut s, m.from as u64);
        push_char(&mut s, '-');
        push_dec(&mut s, m.to as u64);
    }
    if m.victim != NONE {
        push_char(&mut s, 'x');
        push_dec(&mut s, m.victim as u64);
    }
    proof {
        assert(s@ =~= move_text(*m));
    }
    s
}

} // verus!
