//! Bagh-Chal: the "tigers and goats" hunt on a 5x5 Alquerque lattice (orthogonal
//! lines everywhere, diagonals only through the points where `row + col` is even).
//! Four tigers start on the corners; the goats begin in hand. Goats move first
//! (seat 0), tigers second (seat 1).
//!
//! - While goats remain in hand, the goat player places one on any empty point.
//! - Once the hand is empty, a goat steps one point along a line to an empty point.
//! - A tiger steps along a line to an empty point, or jumps an adjacent goat, landing
//!   on the empty point directly beyond it along the same line (a single capture).
//!
//! Tigers win by capturing `capture_target` goats; goats win by immobilising every
//! tiger. A ply cap declares a draw.
use vstd::prelude::*;
use crate::outcome::Outcome;
use crate::text::{push_all, push_str, push_char, push_dec, dec, parse_uint, parse_uint_range, chars_of, lemma_parse_dec, lemma_dec, is_digit};

verus! {

pub const SIZE: isize = 5;
pub const N: usize = 25;
/// `from` marking a goat placement rather than a slide or jump.
pub const PLACE: u8 = 0xFF;
pub const GOAT: u8 = 0;
pub const TIGER: u8 = 1;
/// Plies after which the game is a draw.
pub const PLY_CAP: u32 = 200;

/// Row and column of point `i`.
pub fn rc(i: usize) -> (p: (isize, isize))
    requires
        i < N,
    ensures
        p.0 == i / 5,
        p.1 == i % 5,
        0 <= p.0 < 5,
        0 <= p.1 < 5,
{
    ((i / 5) as isize, (i % 5) as isize)
}

/// The eight step directions: four orthogonal, then four diagonal.
pub open spec fn dir_spec(k: int) -> (int, int) {
    if k == 0 {
        (-1, 0)
    } else if k == 1 {
        (1, 0)
    } else if k == 2 {
        (0, -1)
    } else if k == 3 {
        (0, 1)
    } else if k == 4 {
        (-1, -1)
    } else if k == 5 {
        (-1, 1)
    } else if k == 6 {
        (1, -1)
    } else {
        (1, 1)
    }
}

fn dir(k: usize) -> (d: (isize, isize))
    requires
        k < 8,
    ensures
        d.0 == dir_spec(k as int).0,
        d.1 == dir_spec(k as int).1,
{
    match k {
        0 => (-1, 0),
        1 => (1, 0),
        2 => (0, -1),
        3 => (0, 1),
        4 => (-1, -1),
        5 => (-1, 1),
        6 => (1, -1),
        _ => (1, 1),
    }
}

/// The neighbour one step `(dr, dc)` from `(r, c)`, if that lattice edge exists:
/// orthogonal edges exist everywhere in bounds, diagonal ones only through a point
/// whose `r + c` is even.
pub open spec fn step_spec(r: int, c: int, dr: int, dc: int) -> Option<int> {
    if dr != 0 && dc != 0 && (r + c) % 2 != 0 {
        None
    } else if 0 <= r + dr < 5 && 0 <= c + dc < 5 {
        Some((r + dr) * 5 + (c + dc))
    } else {
        None
    }
}

pub fn step(r: isize, c: isize, dr: isize, dc: isize) -> (n: Option<usize>)
    requires
        0 <= r < 5,
        0 <= c < 5,
        -1 <= dr <= 1,
        -1 <= dc <= 1,
    ensures
        n matches Some(v) ==> step_spec(r as int, c as int, dr as int, dc as int) == Some(v as int) && v < N,
        n is None ==> step_spec(r as int, c as int, dr as int, dc as int) is None,
{
    if dr != 0 && dc != 0 && (r + c) % 2 != 0 {
        return None;
    }
    let nr = r + dr;
    let nc = c + dc;
    if 0 <= nr && nr < SIZE && 0 <= nc && nc < SIZE {
        Some((nr * SIZE + nc) as usize)
    } else {
        None
    }
}

/// A jump in direction `(dr, dc)` from `(r, c)`: the midpoint and the landing point,
/// if both edges of the two-step line exist.
pub open spec fn jump_spec(r: int, c: int, dr: int, dc: int) -> Option<(int, int)> {
    match step_spec(r, c, dr, dc) {
        Some(mid) => match step_spec(r + dr, c + dc, dr, dc) {
            Some(land) => Some((mid, land)),
            None => None,
        },
        None => None,
    }
}

pub fn jump(r: isize, c: isize, dr: isize, dc: isize) -> (j: Option<(usize, usize)>)
    requires
        0 <= r < 5,
        0 <= c < 5,
        -1 <= dr <= 1,
        -1 <= dc <= 1,
    ensures
        j matches Some(p) ==> jump_spec(r as int, c as int, dr as int, dc as int) == Some((p.0 as int, p.1 as int)) && p.0 < N
            && p.1 < N,
        j is None ==> jump_spec(r as int, c as int, dr as int, dc as int) is None,
{
    let mid = match step(r, c, dr, dc) {
        Some(m) => m,
        None => {
            return None;
        },
    };
    let land = match step(r + dr, c + dc, dr, dc) {
        Some(l) => l,
        None => {
            return None;
        },
    };
    Some((mid, land))
}

/// The lattice neighbours of point `i`, in direction order.
pub open spec fn neighbors_upto(i: int, k: int) -> Seq<usize>
    decreases k,
{
    if k <= 0 {
        seq![]
    } else {
        neighbors_upto(i, k - 1) + match step_spec(i / 5, i % 5, dir_spec(k - 1).0, dir_spec(k - 1).1) {
            Some(n) => seq![n as usize],
            None => seq![],
        }
    }
}

/// All lattice neighbours of point `i`, in direction order.
pub fn neighbors(i: usize) -> (v: Vec<usize>)
    requires
        i < N,
    ensures
        v@ == neighbors_upto(i as int, 8),
{
    let (r, c) = rc(i);
    let mut v: Vec<usize> = Vec::new();
    let mut k: usize = 0;
    while k < 8
        invariant
            i < N,
            r == i / 5,
            c == i % 5,
            0 <= r < 5,
            0 <= c < 5,
            k <= 8,
            v@ == neighbors_upto(i as int, k as int),
        decreases 8 - k,
    {
        let (dr, dc) = dir(k);
        match step(r, c, dr, dc) {
            Some(n) => v.push(n),
            None => {},
        }
        k += 1;
    }
    v
}

#[derive(Clone, Copy, Debug, PartialEq, Eq, Structural)]
pub struct BcMove {
    /// `PLACE` for a goat placement, else the source point.
    pub from: u8,
    /// The destination point (a jump's landing is two steps away).
    pub to: u8,
}

#[derive(Clone, Debug)]
pub struct Baghchal {
    /// -1 empty, 0 goat, 1 tiger.
    pub grid: [i8; 25],
    pub current: u8,
    /// Goats still to place.
    pub in_hand: u32,
    /// Goats eaten by the tigers.
    pub captured: u32,
    /// Captures that win it for the tigers.
    pub capture_target: u32,
    pub ply: u32,
}

impl Baghchal {
    pub open spec fn wf(&self) -> bool {
        &&& self.current <= 1
        &&& forall|i: int| 0 <= i < N ==> -1 <= #[trigger] self.grid[i] <= 1
    }

    /// The move along direction `d` from point `i` for the side to move.
    pub open spec fn dir_move(&self, i: int, d: int) -> Seq<BcMove> {
        let (r, c) = (i / 5, i % 5);
        let (dr, dc) = dir_spec(d);
        match step_spec(r, c, dr, dc) {
            Some(n) => if self.grid[n] == -1 {
                seq![BcMove { from: i as u8, to: n as u8 }]
            } else if self.current == TIGER && self.grid[n] == GOAT as i8 {
                match jump_spec(r, c, dr, dc) {
                    Some((_mid, land)) => if self.grid[land] == -1 {
                        seq![BcMove { from: i as u8, to: land as u8 }]
                    } else {
                        seq![]
                    },
                    None => seq![],
                }
            } else {
                seq![]
            },
            None => seq![],
        }
    }

    /// Moves from point `i` along the first `k` directions.
    pub open spec fn dir_moves(&self, i: int, k: int) -> Seq<BcMove>
        decreases k,
    {
        if k <= 0 {
            seq![]
        } else {
            self.dir_moves(i, k - 1) + self.dir_move(i, k - 1)
        }
    }

    /// The moves involving point `i`: a placement on it, or the steps and jumps of the
    /// piece on it.
    pub open spec fn cell_moves(&self, i: int) -> Seq<BcMove> {
        if self.current == GOAT && self.in_hand > 0 {
            if self.grid[i] == -1 {
                seq![BcMove { from: PLACE, to: i as u8 }]
            } else {
                seq![]
            }
        } else if self.grid[i] == self.current as i8 {
            self.dir_moves(i, 8)
        } else {
            seq![]
        }
    }

    /// The moves of the first `k` points.
    pub open spec fn moves_upto(&self, k: int) -> Seq<BcMove>
        decreases k,
    {
        if k <= 0 {
            seq![]
        } else {
            self.moves_upto(k - 1) + self.cell_moves(k - 1)
        }
    }

    /// The legal moves, point by point and direction by direction.
    pub open spec fn moves_spec(&self) -> Seq<BcMove> {
        self.moves_upto(N as int)
    }

    /// Value for the player to move once the game is over.
    pub open spec fn term_spec(&self) -> Option<Outcome> {
        if self.captured >= self.capture_target {
            Some(if self.current == TIGER { Outcome::Win } else { Outcome::Loss })
        } else if self.ply >= PLY_CAP {
            Some(Outcome::Draw)
        } else if self.moves_spec().len() == 0 {
            Some(Outcome::Loss)
        } else {
            None
        }
    }

    /// `m` moves two rows or two columns: a jump.
    pub open spec fn is_jump(m: BcMove) -> bool {
        let (fr, fc, tr, tc) = (m.from / 5, m.from % 5, m.to / 5, m.to % 5);
        tr - fr == 2 || fr - tr == 2 || tc - fc == 2 || fc - tc == 2
    }

    /// The point jumped over by the jump `m`.
    pub open spec fn mid_of(m: BcMove) -> int {
        ((m.from / 5 + m.to / 5) / 2) * 5 + (m.from % 5 + m.to % 5) / 2
    }
}

impl Baghchal {
    pub fn new(goats: u32, capture_target: u32) -> (g: Self)
        ensures
            g.wf(),
            forall|i: int| 0 <= i < N ==> #[trigger] g.grid[i] == if i == 0 || i == 4 || i == 20 || i == 24 { 1 } else { -1 },
            g.current == GOAT,
            g.in_hand == if goats < 1 { 1 } else if goats > 24 { 24 } else { goats },
            g.captured == 0,
            g.capture_target == if capture_target < 1 { 1 } else if capture_target > 24 { 24 } else { capture_target },
            g.ply == 0,
    {
        let mut grid = [-1i8; 25];
        // Tigers start on the four corners.
        grid[0] = TIGER as i8;
        grid[4] = TIGER as i8;
        grid[20] = TIGER as i8;
        grid[24] = TIGER as i8;
        Baghchal {
            grid,
            current: GOAT,
            in_hand: if goats < 1 {
                1
            } else if goats > 24 {
                24
            } else {
                goats
            },
            captured: 0,
            capture_target: if capture_target < 1 {
                1
            } else if capture_target > 24 {
                24
            } else {
                capture_target
            },
            ply: 0,
        }
    }

    /// The moves along the eight directions from point `i`.
    fn dir_moves_exec(&self, i: usize, v: &mut Vec<BcMove>)
        requires
            self.wf(),
            i < N,
        ensures
            final(v)@ == old(v)@ + self.dir_moves(i as int, 8),
    {
        let (r, c) = rc(i);
        let ghost v0 = v@;
        let mut k: usize = 0;
        while k < 8
            invariant
                self.wf(),
                i < N,
                r == i / 5,
                c == i % 5,
                0 <= r < 5,
                0 <= c < 5,
                k <= 8,
                v@ == v0 + self.dir_moves(i as int, k as int),
            decreases 8 - k,
        {
            let (dr, dc) = dir(k);
            match step(r, c, dr, dc) {
                Some(n) => {
                    if self.grid[n] == -1 {
                        v.push(BcMove { from: i as u8, to: n as u8 });
                    } else if self.current == TIGER && self.grid[n] == GOAT as i8 {
                        match jump(r, c, dr, dc) {
                            Some((_mid, land)) => {
                                if self.grid[land] == -1 {
                                    v.push(BcMove { from: i as u8, to: land as u8 });
                                }
                            },
                            None => {},
                        }
                    }
                },
                None => {},
            }
            assert(v@ =~= v0 + self.dir_moves(i as int, k + 1));
            k += 1;
        }
    }

    /// The legal moves: placements while goats are in hand, else the side's steps and
    /// (for tigers) jumps.
    pub fn gen(&self) -> (v: Vec<BcMove>)
        requires
            self.wf(),
        ensures
            v@ == self.moves_spec(),
    {
        let mut v: Vec<BcMove> = Vec::new();
        let mut i: usize = 0;
        while i < N
            invariant
                self.wf(),
                i <= N,
                v@ == self.moves_upto(i as int),
            decreases N - i,
        {
            let ghost before = v@;
            if self.current == GOAT && self.in_hand > 0 {
                if self.grid[i] == -1 {
                    v.push(BcMove { from: PLACE, to: i as u8 });
                }
            } else if self.grid[i] == self.current as i8 {
                self.dir_moves_exec(i, &mut v);
            }
            assert(v@ =~= before + self.cell_moves(i as int));
            i += 1;
        }
        v
    }

    /// The game's value for the player to move, once it is over.
    pub fn term(&self) -> (t: Option<Outcome>)
        requires
            self.wf(),
        ensures
            t == self.term_spec(),
    {
        if self.captured >= self.capture_target {
            return Some(if self.current == TIGER { Outcome::Win } else { Outcome::Loss });
        }
        if self.ply >= PLY_CAP {
            return Some(Outcome::Draw);
        }
        if self.gen().len() == 0 {
            return Some(Outcome::Loss);
        }
        None
    }

    pub fn current_player(&self) -> (p: u8)
        ensures
            p == self.current,
    {
        self.current
    }
}

impl Baghchal {
    /// What a legal move looks like: a placement on an empty point while goats are in
    /// hand, or a piece of the side to move going to an empty point, a jump passing
    /// over a goat.
    pub open spec fn move_shape(&self, m: BcMove) -> bool {
        if m.from == PLACE {
            self.current == GOAT && self.in_hand > 0 && m.to < N && self.grid[m.to as int] == -1
        } else {
            &&& m.from < N
            &&& m.to < N
            &&& self.grid[m.from as int] == self.current as i8
            &&& self.grid[m.to as int] == -1
            &&& !(self.current == GOAT && self.in_hand > 0)
            &&& Self::is_jump(m) ==> self.current == TIGER && 0 <= Self::mid_of(m) < N && self.grid[Self::mid_of(m)] == GOAT as i8
        }
    }

    proof fn lemma_dir_move_shape(&self, i: int, d: int, m: BcMove)
        requires
            self.wf(),
            0 <= i < N,
            0 <= d < 8,
            self.grid[i] == self.current as i8,
            !(self.current == GOAT && self.in_hand > 0),
            self.dir_move(i, d).contains(m),
        ensures
            self.move_shape(m),
    {
        let (r, c) = (i / 5, i % 5);
        let (dr, dc) = dir_spec(d);
        let n = step_spec(r, c, dr, dc)->0;
        assert(m == self.dir_move(i, d)[0]);
        if self.grid[n] == -1 {
            assert(m.to == n);
            assert(n / 5 == r + dr && n % 5 == c + dc);
        } else {
            let land = (jump_spec(r, c, dr, dc)->0).1;
            assert(land == (r + 2 * dr) * 5 + (c + 2 * dc));
            assert(land / 5 == r + 2 * dr && land % 5 == c + 2 * dc);
            assert(m.to == land);
            assert(Self::mid_of(m) == n);
        }
    }

    proof fn lemma_dir_moves_shape(&self, i: int, k: int, m: BcMove)
        requires
            self.wf(),
            0 <= i < N,
            0 <= k <= 8,
            self.grid[i] == self.current as i8,
            !(self.current == GOAT && self.in_hand > 0),
            self.dir_moves(i, k).contains(m),
        ensures
            self.move_shape(m),
        decreases k,
    {
        if k > 0 {
            let a = self.dir_moves(i, k - 1);
            let b = self.dir_move(i, k - 1);
            let j = choose|j: int| 0 <= j < a.len() + b.len() && (a + b)[j] == m;
            if j < a.len() {
                assert(a[j] == m);
                self.lemma_dir_moves_shape(i, k - 1, m);
            } else {
                assert(b[j - a.len()] == m);
                self.lemma_dir_move_shape(i, k - 1, m);
            }
        }
    }

    proof fn lemma_moves_upto_shape(&self, k: int, m: BcMove)
        requires
            self.wf(),
            0 <= k <= N,
            self.moves_upto(k).contains(m),
        ensures
            self.move_shape(m),
        decreases k,
    {
        if k > 0 {
            let a = self.moves_upto(k - 1);
            let b = self.cell_moves(k - 1);
            let j = choose|j: int| 0 <= j < a.len() + b.len() && (a + b)[j] == m;
            if j < a.len() {
                assert(a[j] == m);
                self.lemma_moves_upto_shape(k - 1, m);
            } else {
                assert(b[j - a.len()] == m);
                if !(self.current == GOAT && self.in_hand > 0) {
                    self.lemma_dir_moves_shape(k - 1, 8, m);
                }
            }
        }
    }

    /// Every legal move has the shape of a legal move.
    pub proof fn lemma_legal_shape(&self, m: BcMove)
        requires
            self.wf(),
            self.moves_spec().contains(m),
        ensures
            self.move_shape(m),
    {
        self.lemma_moves_upto_shape(N as int, m);
    }

    /// The board after the legal move `m` (before the turn passes).
    pub open spec fn grid_after(&self, m: BcMove, i: int) -> i8 {
        if m.from == PLACE {
            if i == m.to {
                GOAT as i8
            } else {
                self.grid[i]
            }
        } else if i == m.from || (Self::is_jump(m) && i == Self::mid_of(m)) {
            -1i8
        } else if i == m.to {
            self.grid[m.from as int]
        } else {
            self.grid[i]
        }
    }

    /// `next` is this position after the move `m`: the board changed as `grid_after`
    /// says, a goat spent from hand on a placement, one captured on a jump, the turn
    /// passed.
    pub open spec fn moved(&self, next: Baghchal, m: BcMove) -> bool {
        &&& forall|i: int| 0 <= i < N ==> #[trigger] next.grid[i] == self.grid_after(m, i)
        &&& next.current == 1 - self.current
        &&& next.ply == self.ply + 1
        &&& next.capture_target == self.capture_target
        &&& next.in_hand == self.in_hand - if m.from == PLACE { 1int } else { 0int }
        &&& next.captured == self.captured + if m.from != PLACE && Self::is_jump(m) { 1int } else { 0int }
    }

    /// Play the legal move `m`: place a goat, step a piece, or jump and capture.
    pub fn make_move(&mut self, m: &BcMove)
        requires
            old(self).wf(),
            old(self).moves_spec().contains(*m),
            old(self).captured < u32::MAX,
            old(self).ply < u32::MAX,
        ensures
            final(self).wf(),
            old(self).moved(*final(self), *m),
    {
        proof {
            old(self).lemma_legal_shape(*m);
        }
        if m.from == PLACE {
            self.grid[m.to as usize] = GOAT as i8;
            self.in_hand = self.in_hand - 1;
        } else {
            let from = m.from as usize;
            let to = m.to as usize;
            self.grid[to] = self.grid[from];
            self.grid[from] = -1;
            // A two-step move is a jump: remove the goat on the midpoint.
            let (fr, fc) = rc(from);
            let (tr, tc) = rc(to);
            if tr - fr == 2 || fr - tr == 2 || tc - fc == 2 || fc - tc == 2 {
                let mid = ((fr + tr) / 2 * SIZE + (fc + tc) / 2) as usize;
                self.grid[mid] = -1;
                self.captured = self.captured + 1;
            }
        }
        self.ply = self.ply + 1;
        self.current = 1 - self.current;
    }
}

/// How many of the first `k` points hold `v`.
pub open spec fn count_upto(g: Seq<i8>, v: i8, k: int) -> int
    decreases k,
{
    if k <= 0 {
        0
    } else {
        count_upto(g, v, k - 1) + if g[k - 1] == v { 1int } else { 0int }
    }
}

/// How many points of the board hold `v`.
pub open spec fn count_of(g: Seq<i8>, v: i8) -> int {
    count_upto(g, v, N as int)
}

proof fn lemma_count_update(g: Seq<i8>, j: int, x: i8, v: i8, k: int)
    requires
        0 <= j < g.len(),
        0 <= k <= g.len(),
    ensures
        count_upto(g.update(j, x), v, k) == count_upto(g, v, k) - (if j < k && g[j] == v { 1int } else { 0int }) + (if j < k
            && x == v {
            1int
        } else {
            0int
        }),
    decreases k,
{
    if k > 0 {
        lemma_count_update(g, j, x, v, k - 1);
    }
}

/// Goats are conserved: those on the board, in hand and captured add up to the same
/// number after every legal move, and the tigers stay as many as they were.
pub proof fn lemma_pieces_conserved(g: Baghchal, m: BcMove, next: Baghchal)
    requires
        g.wf(),
        g.moves_spec().contains(m),
        g.moved(next, m),
    ensures
        count_of(next.grid@, GOAT as i8) + next.in_hand + next.captured == count_of(g.grid@, GOAT as i8) + g.in_hand + g.captured,
        count_of(next.grid@, TIGER as i8) == count_of(g.grid@, TIGER as i8),
{
    g.lemma_legal_shape(m);
    let a = g.grid@;
    let n = N as int;
    if m.from == PLACE {
        let b = a.update(m.to as int, GOAT as i8);
        assert(next.grid@ =~= b);
        lemma_count_update(a, m.to as int, GOAT as i8, GOAT as i8, n);
        lemma_count_update(a, m.to as int, GOAT as i8, TIGER as i8, n);
    } else {
        let from = m.from as int;
        let to = m.to as int;
        let b = a.update(to, a[from]);
        let c = b.update(from, -1i8);
        lemma_count_update(a, to, a[from], GOAT as i8, n);
        lemma_count_update(a, to, a[from], TIGER as i8, n);
        lemma_count_update(b, from, -1i8, GOAT as i8, n);
        lemma_count_update(b, from, -1i8, TIGER as i8, n);
        if Baghchal::is_jump(m) {
            let mid = Baghchal::mid_of(m);
            let d = c.update(mid, -1i8);
            assert(next.grid@ =~= d);
            lemma_count_update(c, mid, -1i8, GOAT as i8, n);
            lemma_count_update(c, mid, -1i8, TIGER as i8, n);
        } else {
            assert(next.grid@ =~= c);
        }
    }
}

/// Text of a move: `p<to>` for a placement, `<from>-<to>` for a step or jump.
pub open spec fn move_text(m: BcMove) -> Seq<char> {
    if m.from == PLACE {
        seq!['p'] + dec(m.to as nat)
    } else {
        dec(m.from as nat) + seq!['-'] + dec(m.to as nat)
    }
}

/// A move read from text: `p<to>`, or `<from>-<to>` split at the first `-`, each
/// number read as a `u8` and below 25.
pub open spec fn parse_move_spec(cs: Seq<char>) -> Option<BcMove> {
    if cs.len() >= 1 && cs[0] == 'p' {
        match parse_uint(cs.subrange(1, cs.len() as int), 255) {
            Some(t) => if t < N {
                Some(BcMove { from: PLACE, to: t as u8 })
            } else {
                None
            },
            None => None,
        }
    } else {
        match cs.index_of_first('-') {
            Some(k) => match (parse_uint(cs.subrange(0, k), 255), parse_uint(cs.subrange(k + 1, cs.len() as int), 255)) {
                (Some(f), Some(t)) => if f < N && t < N {
                    Some(BcMove { from: f as u8, to: t as u8 })
                } else {
                    None
                },
                _ => None,
            },
            None => None,
        }
    }
}

impl BcMove {
    pub fn encode(&self) -> (s: String)
        ensures
            s@ == move_text(*self),
    {
        let mut s = String::new();
        if self.from == PLACE {
            push_char(&mut s, 'p');
            push_dec(&mut s, self.to as u64);
        } else {
            push_dec(&mut s, self.from as u64);
            push_char(&mut s, '-');
            push_dec(&mut s, self.to as u64);
        }
        assert(s@ =~= move_text(*self));
        s
    }
}

/// Read a move: `p<to>` (placement) or `<from>-<to>` (step or jump).
pub fn parse_move(mov: &str) -> (r: Option<BcMove>)
    ensures
        r == parse_move_spec(mov@),
{
    let cs = chars_of(mov);
    if cs.len() >= 1 && cs[0] == 'p' {
        return match parse_uint_range(&cs, 1, cs.len(), 255) {
            Some(t) => if t < N as u64 {
                Some(BcMove { from: PLACE, to: t as u8 })
            } else {
                None
            },
            None => None,
        };
    }
    proof {
        cs@.index_of_first_ensures('-');
    }
    let mut k: usize = 0;
    while k < cs.len() && cs[k] != '-'
        invariant
            k <= cs@.len(),
            forall|j: int| 0 <= j < k ==> cs@[j] != '-',
        decreases cs@.len() - k,
    {
        k += 1;
    }
    if k == cs.len() {
        proof {
            assert(!cs@.contains('-'));
        }
        return None;
    }
    proof {
        assert(cs@.contains('-'));
        let f = cs@.index_of_first('-')->0;
        if f != k {
            if f < k {
                assert(cs@[f] != '-');
            } else {
                assert(cs@[k as int] == '-');
            }
        }
    }
    let f = parse_uint_range(&cs, 0, k, 255);
    let t = parse_uint_range(&cs, k + 1, cs.len(), 255);
    match (f, t) {
        (Some(f), Some(t)) => if f < N as u64 && t < N as u64 {
            Some(BcMove { from: f as u8, to: t as u8 })
        } else {
            None
        },
        _ => None,
    }
}

/// The decimal digits of a number hold no `-` and do not start with `p`.
proof fn lemma_dec_plain(v: nat)
    ensures
        !dec(v).contains('-'),
        dec(v).len() >= 1,
        dec(v)[0] != 'p',
{
    lemma_dec(v);
    if dec(v).contains('-') {
        let i = choose|i: int| 0 <= i < dec(v).len() && dec(v)[i] == '-';
        assert(is_digit(dec(v)[i]));
    }
    assert(is_digit(dec(v)[0]));
}

/// The text of a move on the board reads back as that move.
pub proof fn lemma_move_text_round_trip(m: BcMove)
    requires
        m.to < N,
        m.from == PLACE || m.from < N,
    ensures
        parse_move_spec(move_text(m)) == Some(m),
{
    let cs = move_text(m);
    lemma_parse_dec(m.to as nat, 255);
    lemma_dec_plain(m.to as nat);
    if m.from == PLACE {
        assert(cs.subrange(1, cs.len() as int) =~= dec(m.to as nat));
        assert(cs[0] == 'p');
        assert((m.to as int) as u8 == m.to);
    } else {
        lemma_parse_dec(m.from as nat, 255);
        lemma_dec_plain(m.from as nat);
        let k = dec(m.from as nat).len() as int;
        assert(cs[0] == dec(m.from as nat)[0]);
        cs.index_of_first_ensures('-');
        assert(cs[k] == '-');
        assert(cs.contains('-'));
        let f = cs.index_of_first('-')->0;
        if f < k {
            assert(cs[f] == dec(m.from as nat)[f]);
            assert(dec(m.from as nat).contains('-'));
        }
        assert(f == k);
        assert(cs.subrange(0, k) =~= dec(m.from as nat));
        assert(cs.subrange(k + 1, cs.len() as int) =~= dec(m.to as nat));
        assert((m.to as int) as u8 == m.to);
        assert((m.from as int) as u8 == m.from);
    }
}

/// Point character: ` ` empty, `G` goat, `T` tiger.
pub open spec fn point_char(v: i8) -> char {
    if v == 0 {
        'G'
    } else if v == 1 {
        'T'
    } else {
        ' '
    }
}

/// Texts of `ms` joined by `,`.
pub open spec fn moves_text(ms: Seq<BcMove>) -> Seq<char>
    decreases ms.len(),
{
    if ms.len() == 0 {
        seq![]
    } else if ms.len() == 1 {
        move_text(ms[0])
    } else {
        moves_text(ms.drop_last()) + seq![','] + move_text(ms.last())
    }
}

impl Baghchal {
    /// The board: 25 point characters row by row, `|`, then `<in hand>,<captured>`.
    pub open spec fn board_text(&self) -> Seq<char> {
        Seq::new(N as nat, |i: int| point_char(self.grid[i])) + seq!['|'] + dec(self.in_hand as nat) + seq![','] + dec(
            self.captured as nat,
        )
    }

    pub fn board_string(&self) -> (s: String)
        ensures
            s@ == self.board_text(),
    {
        let mut s = String::new();
        let mut i: usize = 0;
        while i < N
            invariant
                i <= N,
                s@ == Seq::new(i as nat, |j: int| point_char(self.grid[j])),
            decreases N - i,
        {
            let v = self.grid[i];
            push_char(&mut s, if v == 0 { 'G' } else if v == 1 { 'T' } else { ' ' });
            assert(s@ =~= Seq::new((i + 1) as nat, |j: int| point_char(self.grid[j])));
            i += 1;
        }
        push_char(&mut s, '|');
        push_dec(&mut s, self.in_hand as u64);
        push_char(&mut s, ',');
        push_dec(&mut s, self.captured as u64);
        assert(s@ =~= self.board_text());
        s
    }

    /// The result: the winning seat counted from 1, `Draw`, or empty while running.
    pub open spec fn result_text(&self) -> Seq<char> {
        match self.term_spec() {
            Some(Outcome::Win) => dec((self.current + 1) as nat),
            Some(Outcome::Loss) => dec((1 - self.current + 1) as nat),
            Some(Outcome::Draw) => seq!['D', 'r', 'a', 'w'],
            None => seq![],
        }
    }

    pub fn result_string(&self) -> (s: String)
        requires
            self.wf(),
        ensures
            s@ == self.result_text(),
    {
        let mut s = String::new();
        match self.term() {
            Some(Outcome::Win) => push_dec(&mut s, self.current as u64 + 1),
            Some(Outcome::Loss) => push_dec(&mut s, (1 - self.current) as u64 + 1),
            Some(Outcome::Draw) => push_all(&mut s, &['D', 'r', 'a', 'w']),
            None => {},
        }
        s
    }

    pub fn legal_moves_string(&self) -> (s: String)
        requires
            self.wf(),
        ensures
            s@ == moves_text(self.moves_spec()),
    {
        let moves = self.gen();
        let mut s = String::new();
        let mut i: usize = 0;
        while i < moves.len()
            invariant
                i <= moves@.len(),
                s@ == moves_text(moves@.take(i as int)),
            decreases moves@.len() - i,
        {
            if i > 0 {
                push_char(&mut s, ',');
            }
            let t = moves[i].encode();
            push_str(&mut s, t.as_str());
            proof {
                assert(moves@.take(i + 1).drop_last() =~= moves@.take(i as int));
            }
            i += 1;
        }
        assert(moves@.take(moves@.len() as int) =~= moves@);
        s
    }

    /// Read `mov` and play it if it is legal; false, leaving the game unchanged,
    /// otherwise.
    pub fn apply_text(&mut self, mov: &str) -> (ok: bool)
        requires
            old(self).wf(),
            old(self).captured < u32::MAX,
            old(self).ply < u32::MAX,
        ensures
            final(self).wf(),
            ok == (parse_move_spec(mov@) matches Some(m) && old(self).moves_spec().contains(m)),
            ok ==> old(self).moved(*final(self), parse_move_spec(mov@)->0),
            !ok ==> *final(self) == *old(self),
    {
        let m = match parse_move(mov) {
            Some(m) => m,
            None => {
                return false;
            },
        };
        let moves = self.gen();
        let mut found = false;
        let mut i: usize = 0;
        while i < moves.len()
            invariant
                i <= moves@.len(),
                found == exists|j: int| 0 <= j < i && moves@[j] == m,
            decreases moves@.len() - i,
        {
            if moves[i] == m {
                found = true;
            }
            i += 1;
        }
        if !found {
            return false;
        }
        self.make_move(&m);
        true
    }
}

/// Every legal move's text reads back as that move.
pub proof fn lemma_legal_text_round_trip(g: Baghchal, m: BcMove)
    requires
        g.wf(),
        g.moves_spec().contains(m),
    ensures
        parse_move_spec(move_text(m)) == Some(m),
{
    g.lemma_legal_shape(m);
    lemma_move_text_round_trip(m);
}

} // verus!
