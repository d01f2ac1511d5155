//! Pinch-Five (Ninuki-renju): place a stone on an empty point; five in a row wins,
//! and so does capturing a target number of enemy pairs. Placing a stone so that it
//! brackets exactly two adjacent stones of one enemy against another own stone
//! along one of the eight lines captures that pair. A ply cap makes every game end.
use vstd::prelude::*;
use crate::gridlib::{shaped, in_grid, cell, max_run, max_run_spec, is_full, window_eval, window_scores, sum_grid, lemma_cell_index};
use crate::reversi::{rv_dr, rv_dc, at, lemma_dims};
use crate::capturego::lemma_cell_arith;
use crate::outcome::Outcome;
use crate::text::{push_char, push_dec, push_str, push_joined, join_nums, u16s, dec, chars_of, parse_uint, parse_uint_range};

verus! {

pub const WIN_LEN: usize = 5;
pub const MAX_PLAYERS: u8 = 4;

#[derive(Clone, Debug)]
pub struct PinchFive {
    /// -1 empty, else the owner's seat.
    pub board: Vec<i8>,
    pub cols: usize,
    pub rows: usize,
    pub current: u8,
    pub num_players: u8,
    /// Captured pairs per seat.
    pub captures: Vec<u16>,
    pub pairs_to_win: u16,
    pub winner: Option<u8>,
    pub plies: u32,
    pub ply_cap: u32,
}

/// The capture along direction `d` after `me` placed on `(r, c)` of board `b`: the two
/// cells beyond are taken off when they hold the same enemy and `me` closes them.
pub open spec fn capture_dir(b: Seq<i8>, cols: int, rows: int, r: int, c: int, d: int, me: i8) -> (Seq<i8>, int) {
    let (r1, c1, r2, c2, r3, c3) = (
        at(r, rv_dr(d), 1),
        at(c, rv_dc(d), 1),
        at(r, rv_dr(d), 2),
        at(c, rv_dc(d), 2),
        at(r, rv_dr(d), 3),
        at(c, rv_dc(d), 3),
    );
    if in_grid(rows, cols, r1, c1) && in_grid(rows, cols, r2, c2) && in_grid(rows, cols, r3, c3) {
        let (v1, v2, v3) = (cell(b, cols, r1, c1), cell(b, cols, r2, c2), cell(b, cols, r3, c3));
        if v1 >= 0 && v1 != me && v1 == v2 && v3 == me {
            (b.update(r1 * cols + c1, -1i8).update(r2 * cols + c2, -1i8), 1)
        } else {
            (b, 0)
        }
    } else {
        (b, 0)
    }
}

/// The board after resolving the captures along the first `n` directions, and the
/// number of pairs taken.
pub open spec fn captures_upto(b: Seq<i8>, cols: int, rows: int, r: int, c: int, me: i8, n: int) -> (Seq<i8>, int)
    decreases n,
{
    if n <= 0 {
        (b, 0)
    } else {
        let (b1, k) = captures_upto(b, cols, rows, r, c, me, n - 1);
        let (b2, k2) = capture_dir(b1, cols, rows, r, c, n - 1, me);
        (b2, k + k2)
    }
}

impl PinchFive {
    pub open spec fn wf(&self) -> bool {
        &&& shaped(self.board@, self.cols as int, self.rows as int)
        &&& self.board@.len() == self.rows * self.cols
        &&& 1 <= self.cols <= 19
        &&& 1 <= self.rows <= 19
        &&& 1 <= self.num_players <= 4
        &&& self.current < self.num_players
        &&& self.captures@.len() == self.num_players
    }

    /// Room in the counters for one more move.
    pub open spec fn room(&self) -> bool {
        &&& self.plies < u32::MAX
        &&& self.captures@[self.current as int] + 8 <= u16::MAX
    }

    pub open spec fn full(&self) -> bool {
        forall|i: int| 0 <= i < self.board@.len() ==> self.board@[i] >= 0
    }

    /// A recorded winner decides; otherwise the ply cap or a full board is a draw.
    pub open spec fn term_spec(&self) -> Option<Outcome> {
        match self.winner {
            Some(w) => Some(if w == self.current { Outcome::Win } else { Outcome::Loss }),
            None => if self.plies >= self.ply_cap || self.full() { Some(Outcome::Draw) } else { None },
        }
    }

    pub open spec fn empty_upto(&self, n: int) -> Seq<u16>
        decreases n,
    {
        if n <= 0 {
            seq![]
        } else {
            self.empty_upto(n - 1) + if self.board@[n - 1] == -1 { seq![(n - 1) as u16] } else { seq![] }
        }
    }

    pub open spec fn moves_spec(&self) -> Seq<u16> {
        if self.term_spec() is Some {
            seq![]
        } else {
            self.empty_upto(self.board@.len() as int)
        }
    }

    /// The board after the side to move places on `cell` and its captures resolve,
    /// and the pairs it took.
    pub open spec fn placed(&self, cell: int) -> (Seq<i8>, int) {
        let cols = self.cols as int;
        captures_upto(self.board@.update(cell, self.current as i8), cols, self.rows as int, cell / cols, cell % cols, self.current as i8, 8)
    }

    /// Whether placing on `cell` wins: by reaching the pair target or by a line of five
    /// through the new stone.
    pub open spec fn wins_by(&self, cell: int) -> bool {
        let (b, k) = self.placed(cell);
        let cols = self.cols as int;
        ||| self.captures@[self.current as int] + k >= self.pairs_to_win
        ||| max_run_spec(b, cols, self.rows as int, cell / cols, cell % cols, self.current as i8) >= 5
    }

    /// A table of `cols` by `rows` for `num_players` seats, the ply cap four plies a cell.
    pub fn new(cols: usize, rows: usize, pairs_to_win: u16, num_players: u8) -> (g: Self)
        requires
            1 <= cols <= 19,
            1 <= rows <= 19,
            1 <= num_players <= 4,
        ensures
            g.wf(),
            g.cols == cols,
            g.rows == rows,
            g.num_players == num_players,
            g.pairs_to_win == pairs_to_win,
            g.current == 0,
            g.winner is None,
            g.plies == 0,
            g.ply_cap == cols * rows * 4,
            forall|i: int| 0 <= i < g.board@.len() ==> #[trigger] g.board@[i] == -1,
            forall|p: int| 0 <= p < num_players ==> #[trigger] g.captures@[p] == 0,
    {
        proof {
            assert(rows * cols <= 361 && cols * rows == rows * cols) by (nonlinear_arith)
                requires
                    cols <= 19,
                    rows <= 19,
            ;
        }
        let n = cols * rows;
        let mut board: Vec<i8> = Vec::new();
        let mut i: usize = 0;
        while i < n
            invariant
                i <= n,
                n <= 361,
                board@.len() == i,
                forall|j: int| 0 <= j < i ==> #[trigger] board@[j] == -1,
            decreases n - i,
        {
            board.push(-1);
            i += 1;
        }
        let mut captures: Vec<u16> = Vec::new();
        let mut p: u8 = 0;
        while p < num_players
            invariant
                p <= num_players,
                captures@.len() == p,
                forall|j: int| 0 <= j < p ==> #[trigger] captures@[j] == 0,
            decreases num_players - p,
        {
            captures.push(0);
            p += 1;
        }
        PinchFive {
            board,
            cols,
            rows,
            current: 0,
            num_players,
            captures,
            pairs_to_win,
            winner: None,
            plies: 0,
            ply_cap: (n * 4) as u32,
        }
    }

    pub fn term(&self) -> (t: Option<Outcome>)
        requires
            self.wf(),
        ensures
            t == self.term_spec(),
    {
        match self.winner {
            Some(w) => Some(if w == self.current { Outcome::Win } else { Outcome::Loss }),
            None => if self.plies >= self.ply_cap || is_full(self.board.as_slice()) {
                Some(Outcome::Draw)
            } else {
                None
            },
        }
    }

    pub fn current_player(&self) -> (p: u8)
        ensures
            p == self.current,
    {
        self.current
    }

    pub fn available_moves(&self) -> (v: Vec<u16>)
        requires
            self.wf(),
        ensures
            v@ == self.moves_spec(),
    {
        if self.term().is_some() {
            return Vec::new();
        }
        let mut v: Vec<u16> = Vec::new();
        let mut i: usize = 0;
        while i < self.board.len()
            invariant
                self.wf(),
                i <= self.board@.len(),
                v@ == self.empty_upto(i as int),
            decreases self.board@.len() - i,
        {
            if self.board[i] == -1 {
                v.push(i as u16);
            }
            i += 1;
        }
        v
    }

    /// The cell `k` steps from `(r, c)` along direction `d`, if on the board.
    fn step(&self, r: usize, c: usize, d: usize, k: usize) -> (o: Option<usize>)
        requires
            self.wf(),
            r < self.rows,
            c < self.cols,
            d < 8,
            1 <= k <= 3,
        ensures
            o matches Some(i) ==> in_grid(self.rows as int, self.cols as int, at(r as int, rv_dr(d as int), k as int), at(c as int, rv_dc(d as int), k as int))
                && i as int == at(r as int, rv_dr(d as int), k as int) * self.cols + at(c as int, rv_dc(d as int), k as int)
                && (i as int) < self.board@.len(),
            o is None ==> !in_grid(self.rows as int, self.cols as int, at(r as int, rv_dr(d as int), k as int), at(c as int, rv_dc(d as int), k as int)),
    {
        let dr = rv_dr_exec(d);
        let dc = rv_dc_exec(d);
        let nr: usize = if dr > 0 {
            r + k
        } else if dr < 0 {
            if k > r {
                return None;
            }
            r - k
        } else {
            r
        };
        let nc: usize = if dc > 0 {
            c + k
        } else if dc < 0 {
            if k > c {
                return None;
            }
            c - k
        } else {
            c
        };
        if nr >= self.rows || nc >= self.cols {
            return None;
        }
        proof {
            lemma_cell_index(self.rows as int, self.cols as int, nr as int, nc as int);
        }
        Some(nr * self.cols + nc)
    }

    /// Place a stone for the side to move, take off the pairs it brackets, record a
    /// win by pairs or by five in a row, and pass the turn.
    /// `next` is this game after the side to move places a stone on `cell`: enemy
    /// pairs it brackets are taken and counted, a line of five or enough pairs wins,
    /// and the turn passes.
    pub open spec fn moved(&self, next: Self, cell: int) -> bool {
        &&& next.wf()
        &&& next.cols == self.cols
        &&& next.rows == self.rows
        &&& next.num_players == self.num_players
        &&& next.pairs_to_win == self.pairs_to_win
        &&& next.ply_cap == self.ply_cap
        &&& next.board@ == self.placed(cell).0
        &&& next.captures@ == self.captures@.update(
            self.current as int,
            (self.captures@[self.current as int] + self.placed(cell).1) as u16,
        )
        &&& next.winner == (if self.wins_by(cell) { Some(self.current) } else { self.winner })
        &&& next.plies == self.plies + 1
        &&& next.current == (self.current + 1) % (self.num_players as int)
    }

    pub fn make_move(&mut self, m: &u16)
        requires
            old(self).wf(),
            old(self).room(),
            (*m as int) < old(self).board@.len(),
        ensures
            final(self).wf(),
            final(self).cols == old(self).cols,
            final(self).rows == old(self).rows,
            final(self).num_players == old(self).num_players,
            final(self).pairs_to_win == old(self).pairs_to_win,
            final(self).ply_cap == old(self).ply_cap,
            final(self).board@ == old(self).placed(*m as int).0,
            final(self).captures@ == old(self).captures@.update(
                old(self).current as int,
                (old(self).captures@[old(self).current as int] + old(self).placed(*m as int).1) as u16,
            ),
            final(self).winner == (if old(self).wins_by(*m as int) { Some(old(self).current) } else { old(self).winner }),
            final(self).plies == old(self).plies + 1,
            final(self).current == (old(self).current + 1) % (old(self).num_players as int),
    {
        let ghost g0 = *self;
        let cell = *m as usize;
        let me = self.current as i8;
        self.board.set(cell, me);
        proof {
            lemma_cell_arith(self.cols as int, self.rows as int, cell as int);
        }
        let r = cell / self.cols;
        let c = cell % self.cols;
        let ghost b1 = self.board@;
        let mut taken: u16 = 0;
        let mut d: usize = 0;
        while d < 8
            invariant
                self.wf(),
                self.cols == g0.cols,
                self.rows == g0.rows,
                self.current == g0.current,
                self.num_players == g0.num_players,
                self.captures@ == g0.captures@,
                self.pairs_to_win == g0.pairs_to_win,
                self.plies == g0.plies,
                self.ply_cap == g0.ply_cap,
                self.winner == g0.winner,
                g0.room(),
                me == g0.current as i8,
                r < self.rows,
                c < self.cols,
                r == cell / self.cols,
                c == cell % self.cols,
                d <= 8,
                taken <= d,
                (self.board@, taken as int) == captures_upto(b1, self.cols as int, self.rows as int, r as int, c as int, me, d as int),
            decreases 8 - d,
        {
            let s1 = self.step(r, c, d, 1);
            let s2 = self.step(r, c, d, 2);
            let s3 = self.step(r, c, d, 3);
            match (s1, s2, s3) {
                (Some(i1), Some(i2), Some(i3)) => {
                    let v1 = self.board[i1];
                    let v2 = self.board[i2];
                    let v3 = self.board[i3];
                    if v1 >= 0 && v1 != me && v1 == v2 && v3 == me {
                        self.board.set(i1, -1);
                        self.board.set(i2, -1);
                        taken = taken + 1;
                    }
                },
                _ => {},
            }
            d += 1;
        }
        let cur = self.current as usize;
        let total = self.captures[cur] + taken;
        self.captures.set(cur, total);
        let capture_win = total >= self.pairs_to_win;
        let line_win = max_run(self.board.as_slice(), self.cols, self.rows, r, c, me) >= 5;
        if capture_win || line_win {
            self.winner = Some(self.current);
        }
        self.plies = self.plies + 1;
        self.current = ((self.current as u16 + 1) % self.num_players as u16) as u8;
    }
}

/// Per-seat evaluation: captured pairs and line progress toward five.
#[derive(Clone, Debug)]
pub struct PfStateEval {
    pub cap: Vec<i64>,
    pub lines: Vec<i64>,
}

/// The largest `cap * 100 + lines` among seats `0..n` other than `p`, if any.
pub open spec fn best_other(e: PfStateEval, p: int, n: int) -> Option<int>
    decreases n,
{
    if n <= 0 {
        None
    } else {
        let m = best_other(e, p, n - 1);
        let v = e.cap@[n - 1] * 100 + e.lines@[n - 1];
        if n - 1 == p {
            m
        } else {
            match m {
                None => Some(v),
                Some(x) => Some(if v > x { v } else { x }),
            }
        }
    }
}

impl PinchFive {
    /// Captured pairs and the window score toward five, per seat.
    pub fn eval_state(&self) -> (e: PfStateEval)
        requires
            self.wf(),
        ensures
            e.cap@.len() == self.num_players,
            e.lines@.len() == self.num_players,
            forall|p: int| 0 <= p < self.num_players ==> #[trigger] e.cap@[p] == self.captures@[p],
            forall|p: int| 0 <= p < self.num_players ==> #[trigger] e.lines@[p] == sum_grid(
                window_scores(self.board@, self.cols as int, self.rows as int, p as i8, 5),
                self.cols as int,
                self.rows as int,
            ),
            forall|p: int| 0 <= p < self.num_players ==> 0 <= #[trigger] e.lines@[p] <= 36100,
    {
        proof {
            assert(4 * self.rows * self.cols * (5 * 5) <= 36100) by (nonlinear_arith)
                requires
                    self.cols <= 19,
                    self.rows <= 19,
            ;
        }
        let mut cap: Vec<i64> = Vec::new();
        let mut lines: Vec<i64> = Vec::new();
        let mut p: u8 = 0;
        while p < self.num_players
            invariant
                self.wf(),
                4 * self.rows * self.cols * (5 * 5) <= 36100,
                p <= self.num_players,
                cap@.len() == p,
                lines@.len() == p,
                forall|q: int| 0 <= q < p ==> #[trigger] cap@[q] == self.captures@[q],
                forall|q: int| 0 <= q < p ==> #[trigger] lines@[q] == sum_grid(
                    window_scores(self.board@, self.cols as int, self.rows as int, q as i8, 5),
                    self.cols as int,
                    self.rows as int,
                ),
                forall|q: int| 0 <= q < p ==> 0 <= #[trigger] lines@[q] <= 36100,
            decreases self.num_players - p,
        {
            cap.push(self.captures[p as usize] as i64);
            lines.push(window_eval(self.board.as_slice(), self.cols, self.rows, p as i8, 5));
            p += 1;
        }
        PfStateEval { cap, lines }
    }
}

/// The value of a snapshot for seat `p`: its `cap * 100 + lines` less the best other
/// seat's (less 0 when there is none).
pub fn eval_for(e: &PfStateEval, p: u8) -> (v: i64)
    requires
        (p as int) < e.cap@.len(),
        e.cap@.len() == e.lines@.len(),
        e.cap@.len() <= 4,
        forall|i: int| 0 <= i < e.cap@.len() ==> 0 <= #[trigger] e.cap@[i] <= 65535,
        forall|i: int| 0 <= i < e.lines@.len() ==> 0 <= #[trigger] e.lines@[i] <= 36100,
    ensures
        v == e.cap@[p as int] * 100 + e.lines@[p as int] - (match best_other(*e, p as int, e.cap@.len() as int) {
            Some(x) => x,
            None => 0,
        }),
{
    let n = e.cap.len();
    let pi = p as usize;
    let mine = e.cap[pi] * 100 + e.lines[pi];
    let mut best: Option<i64> = None;
    let mut i: usize = 0;
    while i < n
        invariant
            n == e.cap@.len(),
            n == e.lines@.len(),
            n <= 4,
            pi == p,
            i <= n,
            forall|k: int| 0 <= k < e.cap@.len() ==> 0 <= #[trigger] e.cap@[k] <= 65535,
            forall|k: int| 0 <= k < e.lines@.len() ==> 0 <= #[trigger] e.lines@[k] <= 36100,
            best matches Some(x) ==> best_other(*e, p as int, i as int) == Some(x as int) && 0 <= x <= 6600000,
            best is None ==> best_other(*e, p as int, i as int) is None,
        decreases n - i,
    {
        if i != pi {
            let v = e.cap[i] * 100 + e.lines[i];
            best = match best {
                None => Some(v),
                Some(x) => Some(if v > x { v } else { x }),
            };
        }
        i += 1;
    }
    let other: i64 = match best {
        Some(x) => x,
        None => 0,
    };
    mine - other
}

/// The table of a new game: sides clamped to 9..=19, the pair target read as 16 bits
/// and clamped to 3..=8, the seat count read as a byte and clamped to 2..=4.
pub fn settings(cols: u32, rows: u32, pairs_to_win: u32, num_players: u32) -> (r: (usize, usize, u16, u8))
    ensures
        r.0 == (if cols < 9 { 9 } else if cols > 19 { 19 } else { cols }),
        r.1 == (if rows < 9 { 9 } else if rows > 19 { 19 } else { rows }),
        r.2 == (if (pairs_to_win as u16) < 3 { 3 } else if (pairs_to_win as u16) > 8 { 8 } else { pairs_to_win as u16 }),
        r.3 == (if (num_players as u8) < 2 { 2 } else if (num_players as u8) > 4 { 4 } else { num_players as u8 }),
{
    let c: usize = if cols < 9 { 9 } else if cols > 19 { 19 } else { cols as usize };
    let r: usize = if rows < 9 { 9 } else if rows > 19 { 19 } else { rows as usize };
    let p = pairs_to_win as u16;
    let p = if p < 3 { 3 } else if p > 8 { 8 } else { p };
    let n = num_players as u8;
    let n = if n < 2 { 2 } else if n > 4 { 4 } else { n };
    (c, r, p, n)
}

/// Cell character: ` ` empty, `X`, `O`, `A`, `B` for seats 0 to 3.
pub open spec fn symbol(v: i8) -> char {
    if v == 0 {
        'X'
    } else if v == 1 {
        'O'
    } else if v == 2 {
        'A'
    } else if v == 3 {
        'B'
    } else {
        ' '
    }
}

impl PinchFive {
    /// The captured pairs per seat, joined by commas.
    pub fn capture_counts(&self) -> (s: String)
        ensures
            s@ == join_nums(u16s(self.captures@), ','),
    {
        let mut s = String::new();
        push_joined(&mut s, &self.captures, ',');
        s
    }

    /// One character per cell, a `|`, then the captured pairs per seat.
    pub fn board_string(&self) -> (s: String)
        ensures
            s@ == Seq::new(self.board@.len(), |i: int| symbol(self.board@[i])) + seq!['|'] + join_nums(u16s(self.captures@), ','),
    {
        let mut s = String::new();
        let mut i: usize = 0;
        while i < self.board.len()
            invariant
                i <= self.board@.len(),
                s@ == Seq::new(i as nat, |j: int| symbol(self.board@[j])),
            decreases self.board@.len() - i,
        {
            let v = self.board[i];
            push_char(&mut s, if v == 0 { 'X' } else if v == 1 { 'O' } else if v == 2 { 'A' } else if v == 3 { 'B' } else { ' ' });
            assert(s@ =~= Seq::new((i + 1) as nat, |j: int| symbol(self.board@[j])));
            i += 1;
        }
        push_char(&mut s, '|');
        push_joined(&mut s, &self.captures, ',');
        s
    }

    /// The winner counted from 1, `Draw`, or empty while the game runs.
    pub fn result_string(&self) -> (s: String)
        requires
            self.wf(),
        ensures
            self.winner matches Some(w) ==> s@ == dec((w + 1) as nat),
            self.winner is None && self.term_spec() == Some(Outcome::Draw) ==> s@ == seq!['D', 'r', 'a', 'w'],
            self.winner is None && self.term_spec() is None ==> s@ == Seq::<char>::empty(),
    {
        let mut s = String::new();
        match self.winner {
            Some(w) => {
                push_dec(&mut s, w as u64 + 1);
            },
            None => {
                if self.term() == Some(Outcome::Draw) {
                    push_str(&mut s, "Draw");
                    proof {
                        reveal_strlit("Draw");
                    }
                }
            },
        }
        s
    }

    pub fn legal_moves_string(&self) -> (s: String)
        requires
            self.wf(),
        ensures
            s@ == join_nums(u16s(self.moves_spec()), ','),
    {
        let v = self.available_moves();
        let mut s = String::new();
        push_joined(&mut s, &v, ',');
        s
    }

    proof fn lemma_empty_below(&self, n: int, m: u16)
        requires
            0 <= n <= self.board@.len(),
            self.empty_upto(n).contains(m),
        ensures
            (m as int) < n,
        decreases n,
    {
        if n > 0 {
            let a = self.empty_upto(n - 1);
            if a.contains(m) {
                self.lemma_empty_below(n - 1, m);
            } else {
                let k = choose|k: int| 0 <= k < self.empty_upto(n).len() && self.empty_upto(n)[k] == m;
                assert(k >= a.len());
            }
        }
    }

    /// Place on the cell that `mov` names if that is a legal move; false, leaving the
    /// game unchanged, otherwise.
    pub fn apply_text(&mut self, mov: &str) -> (ok: bool)
        requires
            old(self).wf(),
            old(self).room(),
        ensures
            final(self).wf(),
            ok == (parse_uint(mov@, 65535) matches Some(v) && v < old(self).board@.len() && old(self).moves_spec().contains(v as u16)),
            !ok ==> *final(self) == *old(self),
            ok ==> old(self).moved(*final(self), parse_uint(mov@, 65535)->0),
    {
        let cs = chars_of(mov);
        proof {
            assert(cs@.subrange(0, cs@.len() as int) =~= mov@);
        }
        let v = match parse_uint_range(&cs, 0, cs.len(), 65535) {
            Some(v) => v,
            None => {
                return false;
            },
        };
        if v as usize >= self.board.len() {
            return false;
        }
        let m = v as u16;
        let moves = self.available_moves();
        let mut found = false;
        let mut i: usize = 0;
        while i < moves.len()
            invariant
                i <= moves@.len(),
                found == exists|j: int| 0 <= j < i && moves@[j] == m,
            decreases moves@.len() - i,
        {
            if moves[i] == m {
                found = true;
            }
            i += 1;
        }
        if !found {
            return false;
        }
        self.make_move(&m);
        true
    }
}

proof fn lemma_captures_only_enemy(b: Seq<i8>, cols: int, rows: int, r: int, c: int, me: i8, n: int)
    requires
        0 <= n <= 8,
        b.len() == rows * cols,
        1 <= cols,
        1 <= rows,
    ensures
        captures_upto(b, cols, rows, r, c, me, n).0.len() == b.len(),
        forall|j: int| 0 <= j < b.len() ==> {
            let v = #[trigger] captures_upto(b, cols, rows, r, c, me, n).0[j];
            v == b[j] || (v == -1 && b[j] >= 0 && b[j] != me)
        },
    decreases n,
{
    if n > 0 {
        lemma_captures_only_enemy(b, cols, rows, r, c, me, n - 1);
        let (b1, k) = captures_upto(b, cols, rows, r, c, me, n - 1);
        let d = n - 1;
        let (r1, c1, r2, c2, r3, c3) = (
            at(r, rv_dr(d), 1),
            at(c, rv_dc(d), 1),
            at(r, rv_dr(d), 2),
            at(c, rv_dc(d), 2),
            at(r, rv_dr(d), 3),
            at(c, rv_dc(d), 3),
        );
        if in_grid(rows, cols, r1, c1) && in_grid(rows, cols, r2, c2) && in_grid(rows, cols, r3, c3) {
            lemma_cell_index(rows, cols, r1, c1);
            lemma_cell_index(rows, cols, r2, c2);
            assert(rows * cols == cols * rows) by (nonlinear_arith);
        }
    }
}

/// Captures only ever take off enemy stones: after a placement every cell keeps its
/// stone, except enemy stones that became empty, so a stone placed into a bracket is
/// never taken by its own move.
pub proof fn lemma_only_enemy_stones_are_taken(g: PinchFive, cell: int)
    requires
        g.wf(),
        0 <= cell < g.board@.len(),
    ensures
        g.placed(cell).0.len() == g.board@.len(),
        forall|j: int| 0 <= j < g.board@.len() ==> {
            let v = #[trigger] g.placed(cell).0[j];
            let before = g.board@.update(cell, g.current as i8)[j];
            v == before || (v == -1 && before >= 0 && before != g.current as i8)
        },
{
    let cols = g.cols as int;
    lemma_captures_only_enemy(g.board@.update(cell, g.current as i8), cols, g.rows as int, cell / cols, cell % cols, g.current as i8, 8);
}

fn rv_dr_exec(d: usize) -> (x: i8)
    requires
        d < 8,
    ensures
        x as int == rv_dr(d as int),
{
    if d == 2 || d == 4 || d == 5 {
        1
    } else if d == 3 || d == 6 || d == 7 {
        -1
    } else {
        0
    }
}

fn rv_dc_exec(d: usize) -> (x: i8)
    requires
        d < 8,
    ensures
        x as int == rv_dc(d as int),
{
    if d == 0 || d == 4 || d == 6 {
        1
    } else if d == 1 || d == 5 || d == 7 {
        -1
    } else {
        0
    }
}


/// Index of the cell `s` steps from `(r, c)` in the `d`-th of the eight directions.
pub open spec fn ray_idx(cols: int, r: int, c: int, d: int, s: int) -> int {
    at(r, rv_dr(d), s) * cols + at(c, rv_dc(d), s)
}

pub open spec fn ray_in(rows: int, cols: int, r: int, c: int, d: int, s: int) -> bool {
    in_grid(rows, cols, at(r, rv_dr(d), s), at(c, rv_dc(d), s))
}

/// Distinct cells of the grid have distinct indices.
proof fn lemma_index_inj(rows: int, cols: int, r1: int, c1: int, r2: int, c2: int)
    requires
        in_grid(rows, cols, r1, c1),
        in_grid(rows, cols, r2, c2),
        r1 * cols + c1 == r2 * cols + c2,
    ensures
        r1 == r2 && c1 == c2,
{
    vstd::arithmetic::div_mod::lemma_fundamental_div_mod_converse(r1 * cols + c1, cols, r1, c1);
    vstd::arithmetic::div_mod::lemma_fundamental_div_mod_converse(r2 * cols + c2, cols, r2, c2);
}

/// Cells one to three steps out along two different directions are different cells,
/// and none of them is the origin.
proof fn lemma_rays_apart(rows: int, cols: int, r: int, c: int, d: int, e: int, s: int, t: int)
    requires
        0 <= d < 8,
        0 <= e < 8,
        1 <= s <= 3,
        1 <= t <= 3,
        ray_in(rows, cols, r, c, d, s),
        ray_in(rows, cols, r, c, e, t),
        d != e || s != t,
    ensures
        ray_idx(cols, r, c, d, s) != ray_idx(cols, r, c, e, t),
{
    if ray_idx(cols, r, c, d, s) == ray_idx(cols, r, c, e, t) {
        lemma_index_inj(rows, cols, at(r, rv_dr(d), s), at(c, rv_dc(d), s), at(r, rv_dr(e), t), at(c, rv_dc(e), t));
    }
}

proof fn lemma_ray_not_origin(rows: int, cols: int, r: int, c: int, d: int, s: int)
    requires
        0 <= d < 8,
        1 <= s <= 3,
        in_grid(rows, cols, r, c),
        ray_in(rows, cols, r, c, d, s),
    ensures
        ray_idx(cols, r, c, d, s) != r * cols + c,
{
    if ray_idx(cols, r, c, d, s) == r * cols + c {
        lemma_index_inj(rows, cols, at(r, rv_dr(d), s), at(c, rv_dc(d), s), r, c);
    }
}

/// The pair pattern in direction `d` of board `b`: the two cells beyond `(r, c)` hold
/// the same enemy of `me` and the third holds `me`.
pub open spec fn pinch_d(b: Seq<i8>, cols: int, rows: int, r: int, c: int, d: int, me: i8) -> bool {
    &&& ray_in(rows, cols, r, c, d, 1)
    &&& ray_in(rows, cols, r, c, d, 2)
    &&& ray_in(rows, cols, r, c, d, 3)
    &&& b[ray_idx(cols, r, c, d, 1)] >= 0
    &&& b[ray_idx(cols, r, c, d, 1)] != me
    &&& b[ray_idx(cols, r, c, d, 1)] == b[ray_idx(cols, r, c, d, 2)]
    &&& b[ray_idx(cols, r, c, d, 3)] == me
}

pub open spec fn pinch_count(b: Seq<i8>, cols: int, rows: int, r: int, c: int, me: i8, n: int) -> int
    decreases n,
{
    if n <= 0 {
        0
    } else {
        pinch_count(b, cols, rows, r, c, me, n - 1) + if pinch_d(b, cols, rows, r, c, n - 1, me) { 1int } else { 0int }
    }
}

/// Resolving direction `d` leaves every cell of the other rays as it was.
proof fn lemma_capture_dir_frame(x: Seq<i8>, cols: int, rows: int, r: int, c: int, d: int, me: i8, e: int, t: int)
    requires
        0 <= d < 8,
        0 <= e < 8,
        e != d,
        1 <= t <= 3,
        ray_in(rows, cols, r, c, e, t),
        rows * cols <= x.len(),
    ensures
        capture_dir(x, cols, rows, r, c, d, me).0[ray_idx(cols, r, c, e, t)] == x[ray_idx(cols, r, c, e, t)],
        capture_dir(x, cols, rows, r, c, d, me).0.len() == x.len(),
{
    lemma_cell_index(rows, cols, at(r, rv_dr(e), t), at(c, rv_dc(e), t));
    if ray_in(rows, cols, r, c, d, 1) && ray_in(rows, cols, r, c, d, 2) {
        lemma_cell_index(rows, cols, at(r, rv_dr(d), 1), at(c, rv_dc(d), 1));
        lemma_cell_index(rows, cols, at(r, rv_dr(d), 2), at(c, rv_dc(d), 2));
        lemma_rays_apart(rows, cols, r, c, d, e, 1, t);
        lemma_rays_apart(rows, cols, r, c, d, e, 2, t);
    }
}

/// Directions not yet resolved see the board as placed.
proof fn lemma_upto_frame(b: Seq<i8>, cols: int, rows: int, r: int, c: int, me: i8, n: int, e: int, t: int)
    requires
        0 <= n <= e < 8,
        1 <= t <= 3,
        ray_in(rows, cols, r, c, e, t),
        rows * cols <= b.len(),
    ensures
        captures_upto(b, cols, rows, r, c, me, n).0[ray_idx(cols, r, c, e, t)] == b[ray_idx(cols, r, c, e, t)],
        captures_upto(b, cols, rows, r, c, me, n).0.len() == b.len(),
    decreases n,
{
    if n > 0 {
        lemma_upto_frame(b, cols, rows, r, c, me, n - 1, e, t);
        lemma_capture_dir_frame(captures_upto(b, cols, rows, r, c, me, n - 1).0, cols, rows, r, c, n - 1, me, e, t);
    }
}

/// Resolving captures keeps the board's length.
proof fn lemma_upto_len(b: Seq<i8>, cols: int, rows: int, r: int, c: int, me: i8, n: int)
    requires
        rows * cols <= b.len(),
    ensures
        captures_upto(b, cols, rows, r, c, me, n).0.len() == b.len(),
    decreases n,
{
    if n > 0 {
        lemma_upto_len(b, cols, rows, r, c, me, n - 1);
        let d = n - 1;
        if ray_in(rows, cols, r, c, d, 1) && ray_in(rows, cols, r, c, d, 2) {
            lemma_cell_index(rows, cols, at(r, rv_dr(d), 1), at(c, rv_dc(d), 1));
            lemma_cell_index(rows, cols, at(r, rv_dr(d), 2), at(c, rv_dc(d), 2));
        }
    }
}

/// Resolving direction `d` takes a pair exactly when the pattern stands there.
proof fn lemma_capture_dir_count(x: Seq<i8>, b: Seq<i8>, cols: int, rows: int, r: int, c: int, d: int, me: i8)
    requires
        0 <= d < 8,
        forall|t: int| 1 <= t <= 3 && ray_in(rows, cols, r, c, d, t) ==> x[#[trigger] ray_idx(cols, r, c, d, t)] == b[ray_idx(cols, r, c, d, t)],
    ensures
        capture_dir(x, cols, rows, r, c, d, me).1 == if pinch_d(b, cols, rows, r, c, d, me) { 1int } else { 0int },
{
}

/// The pairs taken over the first `n` directions are the patterns that stand there.
proof fn lemma_upto_count(b: Seq<i8>, cols: int, rows: int, r: int, c: int, me: i8, n: int)
    requires
        0 <= n <= 8,
        rows * cols <= b.len(),
    ensures
        captures_upto(b, cols, rows, r, c, me, n).1 == pinch_count(b, cols, rows, r, c, me, n),
    decreases n,
{
    if n > 0 {
        lemma_upto_count(b, cols, rows, r, c, me, n - 1);
        let x = captures_upto(b, cols, rows, r, c, me, n - 1).0;
        assert forall|t: int| 1 <= t <= 3 && ray_in(rows, cols, r, c, n - 1, t) implies x[#[trigger] ray_idx(cols, r, c, n - 1, t)]
            == b[ray_idx(cols, r, c, n - 1, t)] by {
            lemma_upto_frame(b, cols, rows, r, c, me, n - 1, n - 1, t);
        }
        lemma_capture_dir_count(x, b, cols, rows, r, c, n - 1, me);
    }
}

/// A pattern in direction `d` empties its pair once direction `d` is resolved, and it
/// stays empty.
proof fn lemma_upto_removes(b: Seq<i8>, cols: int, rows: int, r: int, c: int, me: i8, n: int, d: int)
    requires
        0 <= d < n <= 8,
        pinch_d(b, cols, rows, r, c, d, me),
        rows * cols <= b.len(),
    ensures
        captures_upto(b, cols, rows, r, c, me, n).0[ray_idx(cols, r, c, d, 1)] == -1,
        captures_upto(b, cols, rows, r, c, me, n).0[ray_idx(cols, r, c, d, 2)] == -1,
    decreases n,
{
    let x = captures_upto(b, cols, rows, r, c, me, n - 1).0;
    lemma_cell_index(rows, cols, at(r, rv_dr(d), 1), at(c, rv_dc(d), 1));
    lemma_cell_index(rows, cols, at(r, rv_dr(d), 2), at(c, rv_dc(d), 2));
    if n - 1 == d {
        lemma_upto_frame(b, cols, rows, r, c, me, d, d, 1);
        lemma_upto_frame(b, cols, rows, r, c, me, d, d, 2);
        lemma_upto_frame(b, cols, rows, r, c, me, d, d, 3);
    } else {
        lemma_upto_removes(b, cols, rows, r, c, me, n - 1, d);
        lemma_upto_len(b, cols, rows, r, c, me, n - 1);
        lemma_capture_dir_frame(x, cols, rows, r, c, n - 1, me, d, 1);
        lemma_capture_dir_frame(x, cols, rows, r, c, n - 1, me, d, 2);
    }
}

/// Four stones `me, enemy, enemy, me` from `(r, c)` along `(dr, dc)`, the two enemy
/// stones of one seat.
pub open spec fn pinches(b: Seq<i8>, cols: int, rows: int, r: int, c: int, dr: int, dc: int, me: i8) -> bool {
    &&& in_grid(rows, cols, r + dr, c + dc)
    &&& in_grid(rows, cols, r + 2 * dr, c + 2 * dc)
    &&& in_grid(rows, cols, r + 3 * dr, c + 3 * dc)
    &&& cell(b, cols, r + dr, c + dc) >= 0
    &&& cell(b, cols, r + dr, c + dc) != me
    &&& cell(b, cols, r + dr, c + dc) == cell(b, cols, r + 2 * dr, c + 2 * dc)
    &&& cell(b, cols, r + 3 * dr, c + 3 * dc) == me
}

pub open spec fn one_if(x: bool) -> int {
    if x {
        1
    } else {
        0
    }
}

impl PinchFive {
    /// Direction `d` of the engine's order is the unit step `(rv_dr(d), rv_dc(d))`, and
    /// its pattern on the placed board is the pattern on the board before the move.
    proof fn lemma_pinch_dir(&self, cell: int, d: int)
        requires
            self.wf(),
            0 <= cell < self.board@.len(),
            0 <= d < 8,
        ensures
            pinch_d(
                self.board@.update(cell, self.current as i8),
                self.cols as int,
                self.rows as int,
                cell / self.cols as int,
                cell % self.cols as int,
                d,
                self.current as i8,
            ) == pinches(
                self.board@,
                self.cols as int,
                self.rows as int,
                cell / self.cols as int,
                cell % self.cols as int,
                rv_dr(d),
                rv_dc(d),
                self.current as i8,
            ),
            forall|t: int| 1 <= t <= 3 ==> #[trigger] ray_idx(self.cols as int, cell / self.cols as int, cell % self.cols as int, d, t)
                == (cell / self.cols as int + rv_dr(d) * t) * self.cols as int + (cell % self.cols as int + rv_dc(d) * t),
    {
        let (cols, rows) = (self.cols as int, self.rows as int);
        lemma_cell_arith(cols, rows, cell);
        let (r, c) = (cell / cols, cell % cols);
        let b = self.board@;
        let b0 = b.update(cell, self.current as i8);
        assert forall|t: int| #![trigger at(r, rv_dr(d), t)] true implies at(r, rv_dr(d), t) == r + rv_dr(d) * t && at(c, rv_dc(d), t) == c + rv_dc(d) * t by {
            crate::reversi::lemma_at(r, rv_dr(d), t);
            crate::reversi::lemma_at(c, rv_dc(d), t);
        }
        assert(at(r, rv_dr(d), 1) == r + rv_dr(d) * 1 && at(c, rv_dc(d), 1) == c + rv_dc(d) * 1);
        assert(at(r, rv_dr(d), 2) == r + rv_dr(d) * 2 && at(c, rv_dc(d), 2) == c + rv_dc(d) * 2);
        assert(at(r, rv_dr(d), 3) == r + rv_dr(d) * 3 && at(c, rv_dc(d), 3) == c + rv_dc(d) * 3);
        assert forall|t: int| 1 <= t <= 3 implies #[trigger] ray_idx(cols, r, c, d, t) == (r + rv_dr(d) * t) * cols + (c + rv_dc(d) * t) by {
            assert(at(r, rv_dr(d), t) == r + rv_dr(d) * t);
        }
        assert(r + rv_dr(d) * 1 == r + rv_dr(d) && r + rv_dr(d) * 2 == r + 2 * rv_dr(d) && r + rv_dr(d) * 3 == r + 3 * rv_dr(d));
        assert(c + rv_dc(d) * 1 == c + rv_dc(d) && c + rv_dc(d) * 2 == c + 2 * rv_dc(d) && c + rv_dc(d) * 3 == c + 3 * rv_dc(d));
        assert(r * cols + c == cell);
        if ray_in(rows, cols, r, c, d, 1) && ray_in(rows, cols, r, c, d, 2) && ray_in(rows, cols, r, c, d, 3) {
            lemma_ray_not_origin(rows, cols, r, c, d, 1);
            lemma_ray_not_origin(rows, cols, r, c, d, 2);
            lemma_ray_not_origin(rows, cols, r, c, d, 3);
            lemma_cell_index(rows, cols, at(r, rv_dr(d), 1), at(c, rv_dc(d), 1));
            lemma_cell_index(rows, cols, at(r, rv_dr(d), 2), at(c, rv_dc(d), 2));
            lemma_cell_index(rows, cols, at(r, rv_dr(d), 3), at(c, rv_dc(d), 3));
        }
    }

    /// Pair captures are complete in all eight directions: whenever the placed stone,
    /// two stones of one enemy and another stone of the mover stand in a row along any
    /// straight or diagonal line, both enemy stones come off the board.
    pub proof fn lemma_pinched_pair_is_taken(&self, cell: int, dr: int, dc: int)
        requires
            self.wf(),
            0 <= cell < self.board@.len(),
            -1 <= dr <= 1,
            -1 <= dc <= 1,
            dr != 0 || dc != 0,
            pinches(
                self.board@,
                self.cols as int,
                self.rows as int,
                cell / self.cols as int,
                cell % self.cols as int,
                dr,
                dc,
                self.current as i8,
            ),
        ensures
            self.placed(cell).0[(cell / self.cols as int + dr) * self.cols as int + (cell % self.cols as int + dc)] == -1,
            self.placed(cell).0[(cell / self.cols as int + 2 * dr) * self.cols as int + (cell % self.cols as int + 2 * dc)] == -1,
    {
        let (cols, rows) = (self.cols as int, self.rows as int);
        let (r, c) = (cell / cols, cell % cols);
        let d: int = if dr == 0 {
            if dc == 1 { 0 } else { 1 }
        } else if dc == 0 {
            if dr == 1 { 2 } else { 3 }
        } else if dr == 1 {
            if dc == 1 { 4 } else { 5 }
        } else {
            if dc == 1 { 6 } else { 7 }
        };
        assert(rv_dr(d) == dr && rv_dc(d) == dc);
        self.lemma_pinch_dir(cell, d);
        assert(ray_idx(cols, r, c, d, 1) == (r + dr * 1) * cols + (c + dc * 1));
        assert(ray_idx(cols, r, c, d, 2) == (r + dr * 2) * cols + (c + dc * 2));
        assert(r + dr * 1 == r + dr && c + dc * 1 == c + dc && r + dr * 2 == r + 2 * dr && c + dc * 2 == c + 2 * dc);
        lemma_upto_removes(self.board@.update(cell, self.current as i8), cols, rows, r, c, self.current as i8, 8, d);
    }

    /// The pairs a placement takes are exactly the lines of all eight directions in which
    /// the placed stone pinches a pair: one pair per such line.
    pub proof fn lemma_pairs_taken_count(&self, cell: int)
        requires
            self.wf(),
            0 <= cell < self.board@.len(),
        ensures
            ({
                let (b, cols, rows, r, c, me) = (
                    self.board@,
                    self.cols as int,
                    self.rows as int,
                    cell / self.cols as int,
                    cell % self.cols as int,
                    self.current as i8,
                );
                self.placed(cell).1 == one_if(pinches(b, cols, rows, r, c, 0, 1, me)) + one_if(pinches(b, cols, rows, r, c, 0, -1, me))
                    + one_if(pinches(b, cols, rows, r, c, 1, 0, me)) + one_if(pinches(b, cols, rows, r, c, -1, 0, me)) + one_if(
                    pinches(b, cols, rows, r, c, 1, 1, me),
                ) + one_if(pinches(b, cols, rows, r, c, 1, -1, me)) + one_if(pinches(b, cols, rows, r, c, -1, 1, me)) + one_if(
                    pinches(b, cols, rows, r, c, -1, -1, me),
                )
            }),
    {
        let (cols, rows) = (self.cols as int, self.rows as int);
        let (r, c) = (cell / cols, cell % cols);
        let b0 = self.board@.update(cell, self.current as i8);
        lemma_upto_count(b0, cols, rows, r, c, self.current as i8, 8);
        self.lemma_pinch_dir(cell, 0);
        self.lemma_pinch_dir(cell, 1);
        self.lemma_pinch_dir(cell, 2);
        self.lemma_pinch_dir(cell, 3);
        self.lemma_pinch_dir(cell, 4);
        self.lemma_pinch_dir(cell, 5);
        self.lemma_pinch_dir(cell, 6);
        self.lemma_pinch_dir(cell, 7);
        let me = self.current as i8;
        assert(pinch_count(b0, cols, rows, r, c, me, 0) == 0);
        assert(pinch_count(b0, cols, rows, r, c, me, 1) == one_if(pinch_d(b0, cols, rows, r, c, 0, me)));
        assert(pinch_count(b0, cols, rows, r, c, me, 2) == pinch_count(b0, cols, rows, r, c, me, 1) + one_if(pinch_d(b0, cols, rows, r, c, 1, me)));
        assert(pinch_count(b0, cols, rows, r, c, me, 3) == pinch_count(b0, cols, rows, r, c, me, 2) + one_if(pinch_d(b0, cols, rows, r, c, 2, me)));
        assert(pinch_count(b0, cols, rows, r, c, me, 4) == pinch_count(b0, cols, rows, r, c, me, 3) + one_if(pinch_d(b0, cols, rows, r, c, 3, me)));
        assert(pinch_count(b0, cols, rows, r, c, me, 5) == pinch_count(b0, cols, rows, r, c, me, 4) + one_if(pinch_d(b0, cols, rows, r, c, 4, me)));
        assert(pinch_count(b0, cols, rows, r, c, me, 6) == pinch_count(b0, cols, rows, r, c, me, 5) + one_if(pinch_d(b0, cols, rows, r, c, 5, me)));
        assert(pinch_count(b0, cols, rows, r, c, me, 7) == pinch_count(b0, cols, rows, r, c, me, 6) + one_if(pinch_d(b0, cols, rows, r, c, 6, me)));
        assert(pinch_count(b0, cols, rows, r, c, me, 8) == pinch_count(b0, cols, rows, r, c, me, 7) + one_if(pinch_d(b0, cols, rows, r, c, 7, me)));
        assert(rv_dr(0) == 0 && rv_dc(0) == 1 && rv_dr(1) == 0 && rv_dc(1) == -1 && rv_dr(2) == 1 && rv_dc(2) == 0);
        assert(rv_dr(3) == -1 && rv_dc(3) == 0 && rv_dr(4) == 1 && rv_dc(4) == 1 && rv_dr(5) == 1 && rv_dc(5) == -1);
        assert(rv_dr(6) == -1 && rv_dc(6) == 1 && rv_dr(7) == -1 && rv_dc(7) == -1);
    }
}


/// A cell that resolving the first `n` directions changes is one of the two cells of a
/// direction whose pattern stands on the placed board.
proof fn lemma_upto_changed(b: Seq<i8>, cols: int, rows: int, r: int, c: int, me: i8, n: int, j: int) -> (dt: (int, int))
    requires
        0 <= n <= 8,
        rows * cols <= b.len(),
        0 <= j < b.len(),
        captures_upto(b, cols, rows, r, c, me, n).0[j] != b[j],
    ensures
        0 <= dt.0 < n,
        dt.1 == 1 || dt.1 == 2,
        pinch_d(b, cols, rows, r, c, dt.0, me),
        j == ray_idx(cols, r, c, dt.0, dt.1),
    decreases n,
{
    let x = captures_upto(b, cols, rows, r, c, me, n - 1).0;
    lemma_upto_len(b, cols, rows, r, c, me, n - 1);
    if x[j] != b[j] {
        lemma_upto_changed(b, cols, rows, r, c, me, n - 1, j)
    } else {
        let d = n - 1;
        lemma_upto_frame(b, cols, rows, r, c, me, d, d, 1);
        lemma_upto_frame(b, cols, rows, r, c, me, d, d, 2);
        lemma_upto_frame(b, cols, rows, r, c, me, d, d, 3);
        lemma_cell_index(rows, cols, at(r, rv_dr(d), 1), at(c, rv_dc(d), 1));
        lemma_cell_index(rows, cols, at(r, rv_dr(d), 2), at(c, rv_dc(d), 2));
        lemma_cell_index(rows, cols, at(r, rv_dr(d), 3), at(c, rv_dc(d), 3));
        if j == ray_idx(cols, r, c, d, 1) {
            (d, 1)
        } else {
            (d, 2)
        }
    }
}

impl PinchFive {
    /// Pair captures are sound: the placed stone stays, and any other cell that a
    /// placement changes is one of the two enemy stones of a line, straight or diagonal,
    /// in which the placed stone pinches a pair.
    pub proof fn lemma_only_pinched_pairs_taken(&self, cell: int, j: int)
        requires
            self.wf(),
            0 <= cell < self.board@.len(),
            0 <= j < self.board@.len(),
        ensures
            self.placed(cell).0[cell] == self.current as i8,
            j != cell && self.placed(cell).0[j] != self.board@[j] ==> exists|dr: int, dc: int|
                #[trigger] pinches(
                    self.board@,
                    self.cols as int,
                    self.rows as int,
                    cell / self.cols as int,
                    cell % self.cols as int,
                    dr,
                    dc,
                    self.current as i8,
                ) && -1 <= dr <= 1 && -1 <= dc <= 1 && (j == (cell / self.cols as int + dr) * self.cols as int + (cell % self.cols as int + dc)
                    || j == (cell / self.cols as int + 2 * dr) * self.cols as int + (cell % self.cols as int + 2 * dc)),
    {
        let (cols, rows) = (self.cols as int, self.rows as int);
        lemma_cell_arith(cols, rows, cell);
        let (r, c) = (cell / cols, cell % cols);
        let me = self.current as i8;
        let b0 = self.board@.update(cell, me);
        assert(r * cols + c == cell);
        if self.placed(cell).0[cell] != b0[cell] {
            let (d, t) = lemma_upto_changed(b0, cols, rows, r, c, me, 8, cell);
            lemma_ray_not_origin(rows, cols, r, c, d, t);
        }
        if j != cell && self.placed(cell).0[j] != self.board@[j] {
            let (d, t) = lemma_upto_changed(b0, cols, rows, r, c, me, 8, j);
            self.lemma_pinch_dir(cell, d);
            assert(ray_idx(cols, r, c, d, t) == (r + rv_dr(d) * t) * cols + (c + rv_dc(d) * t));
            assert(r + rv_dr(d) * 1 == r + rv_dr(d) && c + rv_dc(d) * 1 == c + rv_dc(d));
            assert(r + rv_dr(d) * 2 == r + 2 * rv_dr(d) && c + rv_dc(d) * 2 == c + 2 * rv_dc(d));
            assert(pinches(self.board@, cols, rows, r, c, rv_dr(d), rv_dc(d), me));
        }
    }
}

} // verus!
