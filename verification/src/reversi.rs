//! Reversi: place a disc so that it brackets straight lines of enemy discs, which
//! flip. A player without a flipping placement passes; the game ends when neither
//! can place, and the most discs win (the fewest in Anti-Reversi).
use vstd::prelude::*;
use crate::gridlib::{in_grid, cell, idx, lemma_cell_index};
use crate::outcome::Outcome;
use crate::text::{push_char, push_dec, push_str, push_joined, join_nums, u16s, dec, chars_of, chars_eq, parse_uint, parse_uint_range};

verus! {

/// Row step of the `d`-th direction: E, W, S, N, SE, SW, NE, NW.
pub open spec fn rv_dr(d: int) -> int {
    if d == 2 || d == 4 || d == 5 {
        1
    } else if d == 3 || d == 6 || d == 7 {
        -1
    } else {
        0
    }
}

/// Column step of the `d`-th direction: E, W, S, N, SE, SW, NE, NW.
pub open spec fn rv_dc(d: int) -> int {
    if d == 0 || d == 4 || d == 6 {
        1
    } else if d == 1 || d == 5 || d == 7 {
        -1
    } else {
        0
    }
}

/// `x` moved `s` steps of `dx` (a unit step or none).
pub open spec fn at(x: int, dx: int, s: int) -> int {
    if dx > 0 {
        x + s
    } else if dx < 0 {
        x - s
    } else {
        x
    }
}

/// Number of consecutive cells holding `v` at steps `s, s + 1, ...` from `(r, c)`
/// in direction `d`.
pub open spec fn run_from(b: Seq<i8>, cols: int, rows: int, r: int, c: int, d: int, v: i8, s: int) -> int
    decreases rows + cols - s,
{
    if s >= rows + cols {
        0
    } else if in_grid(rows, cols, at(r, rv_dr(d), s), at(c, rv_dc(d), s)) && cell(b, cols, at(r, rv_dr(d), s), at(c, rv_dc(d), s)) == v {
        1 + run_from(b, cols, rows, r, c, d, v, s + 1)
    } else {
        0
    }
}

/// The enemy discs that a disc of `p` at `(r, c)` flips in direction `d`: the run of
/// enemy discs next to it, when a disc of `p` closes the run.
pub open spec fn ray_flips(b: Seq<i8>, cols: int, rows: int, r: int, c: int, d: int, p: i8) -> Seq<int> {
    let k = run_from(b, cols, rows, r, c, d, (1 - p) as i8, 1);
    let (er, ec) = (at(r, rv_dr(d), k + 1), at(c, rv_dc(d), k + 1));
    if k >= 1 && in_grid(rows, cols, er, ec) && cell(b, cols, er, ec) == p {
        Seq::new(k as nat, |t: int| at(r, rv_dr(d), t + 1) * cols + at(c, rv_dc(d), t + 1))
    } else {
        seq![]
    }
}

pub open spec fn flips_upto(b: Seq<i8>, cols: int, rows: int, r: int, c: int, p: i8, n: int) -> Seq<int>
    decreases n,
{
    if n <= 0 {
        seq![]
    } else {
        flips_upto(b, cols, rows, r, c, p, n - 1) + ray_flips(b, cols, rows, r, c, n - 1, p)
    }
}

#[derive(Clone, Copy, Debug, PartialEq, Eq, Structural)]
pub enum RvMove {
    Place(u16),
    Pass,
}

#[derive(Clone, Debug)]
pub struct Reversi {
    pub board: Vec<i8>,
    pub cols: usize,
    pub rows: usize,
    pub current: u8,
    /// Anti-Reversi: the fewest discs win.
    pub anti: bool,
}

pub open spec fn count_upto(b: Seq<i8>, v: i8, n: int) -> int
    decreases n,
{
    if n <= 0 {
        0
    } else {
        count_upto(b, v, n - 1) + if b[n - 1] == v { 1int } else { 0int }
    }
}

proof fn lemma_count_bounds(b: Seq<i8>, v: i8, n: int)
    requires
        0 <= n,
    ensures
        0 <= count_upto(b, v, n) <= n,
    decreases n,
{
    if n > 0 {
        lemma_count_bounds(b, v, n - 1);
    }
}

pub proof fn lemma_dims(cols: int, rows: int)
    requires
        1 <= cols <= 1024,
        1 <= rows <= 1024,
    ensures
        cols * rows == rows * cols,
        cols <= cols * rows <= 1048576,
        rows <= cols * rows,
{
    assert(cols * rows == rows * cols) by (nonlinear_arith);
    assert(cols <= cols * rows <= 1048576) by (nonlinear_arith)
        requires
            1 <= cols <= 1024,
            1 <= rows <= 1024,
    ;
    assert(rows <= cols * rows) by (nonlinear_arith)
        requires
            1 <= cols,
            1 <= rows,
    ;
}

impl Reversi {
    pub open spec fn wf(&self) -> bool {
        &&& 1 <= self.cols <= 1024
        &&& 1 <= self.rows <= 1024
        &&& self.board@.len() == self.cols * self.rows
        &&& self.current <= 1
    }

    /// The discs that a disc of `p` placed on `i` flips; nothing for an occupied cell.
    pub open spec fn flips_spec(&self, i: int, p: i8) -> Seq<int> {
        if self.board@[i] != -1 {
            seq![]
        } else {
            flips_upto(self.board@, self.cols as int, self.rows as int, i / self.cols as int, i % self.cols as int, p, 8)
        }
    }

    /// The board after the side to move places a disc on `i`: that cell and every
    /// disc it flips take the mover's colour.
    pub open spec fn placed(&self, i: int) -> Seq<i8> {
        Seq::new(
            self.board@.len(),
            |j: int|
                if j == i || self.flips_spec(i, self.current as i8).contains(j) {
                    self.current as i8
                } else {
                    self.board@[j]
                },
        )
    }

    pub open spec fn legal_spec(&self, i: int, p: i8) -> bool {
        self.board@[i] == -1 && self.flips_spec(i, p).len() > 0
    }

    pub open spec fn places_upto(&self, p: i8, n: int) -> Seq<u16>
        decreases n,
    {
        if n <= 0 {
            seq![]
        } else {
            self.places_upto(p, n - 1) + if self.legal_spec(n - 1, p) { seq![(n - 1) as u16] } else { seq![] }
        }
    }

    pub open spec fn places(&self, p: i8) -> Seq<u16> {
        self.places_upto(p, self.board@.len() as int)
    }

    pub open spec fn has_move_spec(&self, p: i8) -> bool {
        self.places(p).len() > 0
    }

    /// Placements of the side to move; a forced pass when only the opponent can
    /// place; nothing once neither can.
    pub open spec fn moves_spec(&self) -> Seq<RvMove> {
        let mine = self.places(self.current as i8);
        if mine.len() > 0 {
            Seq::new(mine.len(), |j: int| RvMove::Place(mine[j]))
        } else if self.has_move_spec((1 - self.current) as i8) {
            seq![RvMove::Pass]
        } else {
            seq![]
        }
    }

    pub open spec fn count_spec(&self, v: i8) -> int {
        count_upto(self.board@, v, self.board@.len() as int)
    }

    /// Once neither side can place: a win for the side to move with more discs (with
    /// fewer in Anti-Reversi), a draw on equal counts.
    pub open spec fn term_spec(&self) -> Option<Outcome> {
        if self.has_move_spec(self.current as i8) || self.has_move_spec((1 - self.current) as i8) {
            None
        } else {
            let me = self.count_spec(self.current as i8);
            let you = self.count_spec((1 - self.current) as i8);
            Some(
                if me > you {
                    if self.anti { Outcome::Loss } else { Outcome::Win }
                } else if me < you {
                    if self.anti { Outcome::Win } else { Outcome::Loss }
                } else {
                    Outcome::Draw
                },
            )
        }
    }
}

/// The sides of a table: each halved down to even, then clamped to 4..=10.
pub fn table_side(n: u32) -> (s: usize)
    ensures
        s == (if n - n % 2 < 4 { 4 } else if n - n % 2 > 10 { 10 } else { n - n % 2 }),
{
    let e = n - n % 2;
    if e < 4 {
        4
    } else if e > 10 {
        10
    } else {
        e as usize
    }
}

fn step(x: usize, dx: i8, s: usize) -> (y: Option<usize>)
    requires
        -1 <= dx <= 1,
        x <= 1024,
        s <= 4096,
    ensures
        y matches Some(v) ==> v as int == at(x as int, dx as int, s as int),
        y is None ==> at(x as int, dx as int, s as int) < 0,
{
    if dx > 0 {
        Some(x + s)
    } else if dx < 0 {
        if s <= x {
            Some(x - s)
        } else {
            None
        }
    } else {
        Some(x)
    }
}

fn dir_steps(d: usize) -> (r: (i8, i8))
    requires
        d < 8,
    ensures
        r.0 as int == rv_dr(d as int),
        r.1 as int == rv_dc(d as int),
{
    match d {
        0 => (0, 1),
        1 => (0, -1),
        2 => (1, 0),
        3 => (-1, 0),
        4 => (1, 1),
        5 => (1, -1),
        6 => (-1, 1),
        _ => (-1, -1),
    }
}

impl Reversi {
    /// The opening: two discs of each side crossed in the centre.
    pub fn new(cols: usize, rows: usize, anti: bool) -> (g: Self)
        requires
            2 <= cols <= 1024,
            2 <= rows <= 1024,
        ensures
            g.wf(),
            g.cols == cols,
            g.rows == rows,
            g.anti == anti,
            g.current == 0,
            g.board@ == Seq::new((cols * rows) as nat, |i: int| -1i8)
                .update(((rows / 2 - 1) * cols + cols / 2 - 1) as int, 0)
                .update(((rows / 2) * cols + cols / 2) as int, 0)
                .update(((rows / 2 - 1) * cols + cols / 2) as int, 1)
                .update(((rows / 2) * cols + cols / 2 - 1) as int, 1),
    {
        proof {
            lemma_dims(cols as int, rows as int);
        }
        let n = cols * rows;
        let mut board: Vec<i8> = Vec::new();
        let mut i: usize = 0;
        while i < n
            invariant
                i <= n,
                board@ == Seq::new(i as nat, |j: int| -1i8),
            decreases n - i,
        {
            board.push(-1);
            proof {
                assert(board@ =~= Seq::new((i + 1) as nat, |j: int| -1i8));
            }
            i += 1;
        }
        let mr = rows / 2;
        let mc = cols / 2;
        proof {
            lemma_cell_index(rows as int, cols as int, mr - 1, mc - 1);
            lemma_cell_index(rows as int, cols as int, mr as int, mc as int);
            lemma_cell_index(rows as int, cols as int, mr - 1, mc as int);
            lemma_cell_index(rows as int, cols as int, mr as int, mc - 1);
        }
        board.set(idx(mr - 1, mc - 1, cols), 0);
        board.set(idx(mr, mc, cols), 0);
        board.set(idx(mr - 1, mc, cols), 1);
        board.set(idx(mr, mc - 1, cols), 1);
        Reversi { board, cols, rows, current: 0, anti }
    }

    /// The enemy discs a disc of `p` on `(r, c)` flips along direction `d`.
    fn ray(&self, r: usize, c: usize, d: usize, p: i8) -> (line: Vec<usize>)
        requires
            self.wf(),
            r < self.rows,
            c < self.cols,
            d < 8,
            0 <= p <= 1,
        ensures
            line@.len() == ray_flips(self.board@, self.cols as int, self.rows as int, r as int, c as int, d as int, p).len(),
            forall|t: int| 0 <= t < line@.len() ==> #[trigger] line@[t] as int == ray_flips(
                self.board@,
                self.cols as int,
                self.rows as int,
                r as int,
                c as int,
                d as int,
                p,
            )[t],
            forall|t: int| 0 <= t < line@.len() ==> #[trigger] line@[t] < self.board@.len(),
    {
        let ghost b = self.board@;
        let ghost (ci, ri) = (self.cols as int, self.rows as int);
        proof {
            lemma_dims(ci, ri);
        }
        let (dr, dc) = dir_steps(d);
        let enemy: i8 = 1 - p;
        let mut line: Vec<usize> = Vec::new();
        let mut s: usize = 1;
        loop
            invariant
                self.wf(),
                b == self.board@,
                ci == self.cols,
                ri == self.rows,
                r < self.rows,
                c < self.cols,
                d < 8,
                b.len() <= 1048576,
                ci * ri == ri * ci,
                dr as int == rv_dr(d as int),
                dc as int == rv_dc(d as int),
                enemy == 1 - p,
                1 <= s <= ri + ci,
                run_from(b, ci, ri, r as int, c as int, d as int, enemy, 1) == (s - 1) + run_from(b, ci, ri, r as int, c as int, d as int, enemy, s as int),
                line@.len() == s - 1,
                forall|t: int| 0 <= t < line@.len() ==> #[trigger] line@[t] as int == at(r as int, dr as int, t + 1) * ci + at(c as int, dc as int, t + 1),
                forall|t: int| 0 <= t < line@.len() ==> #[trigger] line@[t] < b.len(),
            ensures
                line@.len() == ray_flips(b, ci, ri, r as int, c as int, d as int, p).len(),
                forall|t: int| 0 <= t < line@.len() ==> #[trigger] line@[t] as int == ray_flips(b, ci, ri, r as int, c as int, d as int, p)[t],
                forall|t: int| 0 <= t < line@.len() ==> #[trigger] line@[t] < b.len(),
            decreases ri + ci - s,
        {
            let ghost k = run_from(b, ci, ri, r as int, c as int, d as int, enemy, 1);
            let rr = step(r, dr, s);
            let cc = step(c, dc, s);
            let inside = match (rr, cc) {
                (Some(x), Some(y)) => x < self.rows && y < self.cols,
                _ => false,
            };
            if !inside {
                proof {
                    assert(!in_grid(ri, ci, at(r as int, rv_dr(d as int), s as int), at(c as int, rv_dc(d as int), s as int)));
                    assert(run_from(b, ci, ri, r as int, c as int, d as int, enemy, s as int) == 0);
                    assert(k == s - 1);
                    if k >= 1 {
                        assert(at(r as int, rv_dr(d as int), k + 1) == at(r as int, rv_dr(d as int), s as int));
                    }
                    assert(ray_flips(b, ci, ri, r as int, c as int, d as int, p) =~= seq![]);
                }
                return Vec::new();
            }
            let x = rr.unwrap();
            let y = cc.unwrap();
            proof {
                lemma_cell_index(ri, ci, x as int, y as int);
            }
            let i = idx(x, y, self.cols);
            if self.board[i] == enemy {
                line.push(i);
                proof {
                    assert(s < ri + ci) by {
                        if s >= ri + ci {
                            assert(x as int == at(r as int, rv_dr(d as int), s as int));
                            assert(y as int == at(c as int, rv_dc(d as int), s as int));
                        }
                    }
                }
                s += 1;
            } else {
                proof {
                    assert(run_from(b, ci, ri, r as int, c as int, d as int, enemy, s as int) == 0);
                    assert(k == s - 1);
                }
                if self.board[i] == p && line.len() > 0 {
                    proof {
                        let rf = ray_flips(b, ci, ri, r as int, c as int, d as int, p);
                        assert(rf =~= Seq::new(k as nat, |t: int| at(r as int, rv_dr(d as int), t + 1) * ci + at(c as int, rv_dc(d as int), t + 1)));
                    }
                    return line;
                } else {
                    proof {
                        assert(ray_flips(b, ci, ri, r as int, c as int, d as int, p) =~= seq![]);
                    }
                    return Vec::new();
                }
            }
        }
    }

    /// The discs a disc of `p` on `cell` flips: direction by direction, nearest first.
    pub fn flips(&self, cell: usize, p: i8) -> (all: Vec<usize>)
        requires
            self.wf(),
            cell < self.board@.len(),
            0 <= p <= 1,
        ensures
            all@.len() == self.flips_spec(cell as int, p).len(),
            forall|t: int| 0 <= t < all@.len() ==> #[trigger] all@[t] as int == self.flips_spec(cell as int, p)[t],
            forall|t: int| 0 <= t < all@.len() ==> #[trigger] all@[t] < self.board@.len(),
    {
        if self.board[cell] != -1 {
            return Vec::new();
        }
        proof {
            crate::capturego::lemma_cell_arith(self.cols as int, self.rows as int, cell as int);
        }
        let r = cell / self.cols;
        let c = cell % self.cols;
        let ghost (b, ci, ri) = (self.board@, self.cols as int, self.rows as int);
        let mut all: Vec<usize> = Vec::new();
        let mut d: usize = 0;
        while d < 8
            invariant
                self.wf(),
                b == self.board@,
                ci == self.cols,
                ri == self.rows,
                r < self.rows,
                c < self.cols,
                r == cell / self.cols,
                c == cell % self.cols,
                0 <= p <= 1,
                d <= 8,
                all@.len() == flips_upto(b, ci, ri, r as int, c as int, p, d as int).len(),
                forall|t: int| 0 <= t < all@.len() ==> #[trigger] all@[t] as int == flips_upto(b, ci, ri, r as int, c as int, p, d as int)[t],
                forall|t: int| 0 <= t < all@.len() ==> #[trigger] all@[t] < b.len(),
            decreases 8 - d,
        {
            let line = self.ray(r, c, d, p);
            let ghost before = all@;
            let mut j: usize = 0;
            while j < line.len()
                invariant
                    all@.len() == before.len() + j,
                    j <= line@.len(),
                    forall|t: int| 0 <= t < before.len() ==> #[trigger] all@[t] == before[t],
                    forall|t: int| 0 <= t < j ==> #[trigger] all@[before.len() + t] == line@[t],
                decreases line@.len() - j,
            {
                all.push(line[j]);
                j += 1;
            }
            proof {
                let prev = flips_upto(b, ci, ri, r as int, c as int, p, d as int);
                let rf = ray_flips(b, ci, ri, r as int, c as int, d as int, p);
                assert(flips_upto(b, ci, ri, r as int, c as int, p, d + 1) == prev + rf);
                assert forall|t: int| 0 <= t < all@.len() implies #[trigger] all@[t] as int == (prev + rf)[t] && all@[t] < b.len() by {
                    if t < before.len() {
                        assert(all@[t] == before[t]);
                    } else {
                        assert(all@[before.len() + (t - before.len())] == line@[t - before.len()]);
                    }
                }
            }
            d += 1;
        }
        all
    }

    pub fn is_legal(&self, i: usize, p: i8) -> (b: bool)
        requires
            self.wf(),
            i < self.board@.len(),
            0 <= p <= 1,
        ensures
            b == self.legal_spec(i as int, p),
    {
        self.board[i] == -1 && self.flips(i, p).len() > 0
    }

    /// The cells where `p` may place, in order.
    pub fn places_for(&self, p: i8) -> (v: Vec<u16>)
        requires
            self.wf(),
            self.board@.len() <= 65536,
            0 <= p <= 1,
        ensures
            v@ == self.places(p),
    {
        let mut v: Vec<u16> = Vec::new();
        let mut i: usize = 0;
        while i < self.board.len()
            invariant
                self.wf(),
                self.board@.len() <= 65536,
                0 <= p <= 1,
                i <= self.board@.len(),
                v@ == self.places_upto(p, i as int),
            decreases self.board@.len() - i,
        {
            if self.is_legal(i, p) {
                v.push(i as u16);
            }
            i += 1;
        }
        v
    }

    pub fn has_move(&self, p: i8) -> (b: bool)
        requires
            self.wf(),
            self.board@.len() <= 65536,
            0 <= p <= 1,
        ensures
            b == self.has_move_spec(p),
    {
        self.places_for(p).len() > 0
    }

    pub fn count(&self, v: i8) -> (n: i64)
        requires
            self.wf(),
        ensures
            n == self.count_spec(v),
    {
        proof {
            lemma_dims(self.cols as int, self.rows as int);
        }
        let mut n: i64 = 0;
        let mut i: usize = 0;
        while i < self.board.len()
            invariant
                self.wf(),
                self.board@.len() <= 1048576,
                i <= self.board@.len(),
                n == count_upto(self.board@, v, i as int),
            decreases self.board@.len() - i,
        {
            proof {
                lemma_count_bounds(self.board@, v, i as int);
            }
            if self.board[i] == v {
                n += 1;
            }
            i += 1;
        }
        n
    }

    /// How many of the four corners hold `p`.
    pub open spec fn corners_spec(&self, p: i8) -> int {
        let b = self.board@;
        let (tr, bl, last) = (self.cols - 1, (self.rows - 1) * self.cols, b.len() - 1);
        (if b[0] == p { 1int } else { 0int }) + (if b[tr] == p { 1int } else { 0int }) + (if b[bl] == p {
            1int
        } else {
            0int
        }) + (if b[last] == p { 1int } else { 0int })
    }

    pub fn corners(&self, p: i8) -> (n: i64)
        requires
            self.wf(),
        ensures
            n == self.corners_spec(p),
    {
        proof {
            lemma_cell_index(self.rows as int, self.cols as int, self.rows - 1, 0);
            lemma_cell_index(self.rows as int, self.cols as int, 0, self.cols - 1);
            lemma_dims(self.cols as int, self.rows as int);
        }
        let last = self.board.len() - 1;
        let tr = self.cols - 1;
        let bl = (self.rows - 1) * self.cols;
        let mut n: i64 = 0;
        if self.board[0] == p {
            n += 1;
        }
        if self.board[tr] == p {
            n += 1;
        }
        if self.board[bl] == p {
            n += 1;
        }
        if self.board[last] == p {
            n += 1;
        }
        n
    }

    pub fn mobility(&self, p: i8) -> (n: i64)
        requires
            self.wf(),
            self.board@.len() <= 65536,
            0 <= p <= 1,
        ensures
            n == self.places(p).len(),
    {
        let v = self.places_for(p);
        proof {
            self.lemma_places_len(p, self.board@.len() as int);
        }
        v.len() as i64
    }

    pub fn term(&self) -> (t: Option<Outcome>)
        requires
            self.wf(),
            self.board@.len() <= 65536,
        ensures
            t == self.term_spec(),
    {
        let me = self.current as i8;
        let you = 1 - me;
        if self.has_move(me) || self.has_move(you) {
            return None;
        }
        let a = self.count(me);
        let b = self.count(you);
        Some(
            if a > b {
                if self.anti { Outcome::Loss } else { Outcome::Win }
            } else if a < b {
                if self.anti { Outcome::Win } else { Outcome::Loss }
            } else {
                Outcome::Draw
            },
        )
    }

    pub fn current_player(&self) -> (p: u8)
        ensures
            p == self.current,
    {
        self.current
    }

    pub fn available_moves(&self) -> (v: Vec<RvMove>)
        requires
            self.wf(),
            self.board@.len() <= 65536,
        ensures
            v@ == self.moves_spec(),
    {
        let mine = self.places_for(self.current as i8);
        if mine.len() > 0 {
            let mut v: Vec<RvMove> = Vec::new();
            let mut i: usize = 0;
            while i < mine.len()
                invariant
                    i <= mine@.len(),
                    v@ == Seq::new(i as nat, |j: int| RvMove::Place(mine@[j])),
                decreases mine@.len() - i,
            {
                v.push(RvMove::Place(mine[i]));
                proof {
                    assert(v@ =~= Seq::new((i + 1) as nat, |j: int| RvMove::Place(mine@[j])));
                }
                i += 1;
            }
            return v;
        }
        if self.has_move(1 - self.current as i8) {
            let mut v: Vec<RvMove> = Vec::new();
            v.push(RvMove::Pass);
            return v;
        }
        Vec::new()
    }

    /// Static value for the first player: disc difference plus 12 per corner
    /// (both negated in Anti-Reversi), plus twice the mobility difference.
    pub open spec fn eval_spec(&self) -> int {
        let material = (self.count_spec(0) - self.count_spec(1)) + 12 * (self.corners_spec(0) - self.corners_spec(1));
        (if self.anti { -material } else { material }) + 2 * (self.places(0).len() - self.places(1).len())
    }

    pub fn eval0(&self) -> (e: i64)
        requires
            self.wf(),
            self.board@.len() <= 65536,
        ensures
            e == self.eval_spec(),
            -1000000 <= e <= 1000000,
    {
        proof {
            lemma_count_bounds(self.board@, 0, self.board@.len() as int);
            lemma_count_bounds(self.board@, 1, self.board@.len() as int);
        }
        let material = (self.count(0) - self.count(1)) + 12 * (self.corners(0) - self.corners(1));
        let signed = if self.anti { -material } else { material };
        let m0 = self.mobility(0);
        let m1 = self.mobility(1);
        proof {
            assert(self.places(0).len() <= 65536) by {
                self.lemma_places_len(0, self.board@.len() as int);
            }
            assert(self.places(1).len() <= 65536) by {
                self.lemma_places_len(1, self.board@.len() as int);
            }
        }
        signed + 2 * (m0 - m1)
    }

    proof fn lemma_places_len(&self, p: i8, n: int)
        requires
            0 <= n,
        ensures
            self.places_upto(p, n).len() <= n,
        decreases n,
    {
        if n > 0 {
            self.lemma_places_len(p, n - 1);
        }
    }

    /// The value for player `p`: the first player's value, negated for the second.
    pub fn eval_for(&self, p: u8) -> (e: i64)
        requires
            self.wf(),
            self.board@.len() <= 65536,
        ensures
            e == (if p == 0 { self.eval_spec() } else { -self.eval_spec() }),
    {
        let e = self.eval0();
        if p == 0 { e } else { -e }
    }

    /// Place a disc (flipping what it brackets) or pass; the other side moves next.
    pub fn make_move(&mut self, m: &RvMove)
        requires
            old(self).wf(),
            *m matches RvMove::Place(i) ==> (i as int) < old(self).board@.len(),
        ensures
            final(self).wf(),
            final(self).cols == old(self).cols,
            final(self).rows == old(self).rows,
            final(self).anti == old(self).anti,
            final(self).current == 1 - old(self).current,
            *m == RvMove::Pass ==> final(self).board@ == old(self).board@,
            *m matches RvMove::Place(i) ==> final(self).board@ == old(self).placed(i as int),
    {
        match m {
            RvMove::Place(i) => {
                let cell = *i as usize;
                let p = self.current as i8;
                let fl = self.flips(cell, p);
                let ghost g0 = *self;
                self.board.set(cell, p);
                let mut k: usize = 0;
                while k < fl.len()
                    invariant
                        self.wf(),
                        self.cols == g0.cols,
                        self.rows == g0.rows,
                        self.anti == g0.anti,
                        self.current == g0.current,
                        p == g0.current as i8,
                        self.board@.len() == g0.board@.len(),
                        k <= fl@.len(),
                        forall|t: int| 0 <= t < fl@.len() ==> #[trigger] fl@[t] < g0.board@.len(),
                        forall|j: int| 0 <= j < g0.board@.len() ==> #[trigger] self.board@[j] == if j == cell as int
                            || (exists|t: int| 0 <= t < k && fl@[t] as int == j) {
                            p
                        } else {
                            g0.board@[j]
                        },
                    decreases fl@.len() - k,
                {
                    let f = fl[k];
                    self.board.set(f, p);
                    proof {
                        assert forall|j: int| 0 <= j < g0.board@.len() implies #[trigger] self.board@[j] == if j
                            == cell as int || (exists|t: int| 0 <= t < k + 1 && fl@[t] as int == j) {
                            p
                        } else {
                            g0.board@[j]
                        } by {
                            if j == f as int {
                                assert(fl@[k as int] as int == j);
                            }
                        }
                    }
                    k += 1;
                }
                proof {
                    let fs = g0.flips_spec(cell as int, p);
                    assert(self.board@ =~= g0.placed(cell as int)) by {
                        assert forall|j: int| 0 <= j < g0.board@.len() implies (fs.contains(j) <==> exists|t: int|
                            0 <= t < fl@.len() && fl@[t] as int == j) by {
                            if fs.contains(j) {
                                let t = choose|t: int| 0 <= t < fs.len() && fs[t] == j;
                                assert(fl@[t] as int == fs[t]);
                            }
                            if exists|t: int| 0 <= t < fl@.len() && fl@[t] as int == j {
                                let t = choose|t: int| 0 <= t < fl@.len() && fl@[t] as int == j;
                                assert(fs[t] == fl@[t] as int);
                            }
                        }
                    }
                }
            },
            RvMove::Pass => {},
        }
        self.current = 1 - self.current;
    }
}

/// Cell character: `X` first player, `O` second player, ` ` empty.
pub open spec fn cell_char(v: i8) -> char {
    if v == 0 {
        'X'
    } else if v == 1 {
        'O'
    } else {
        ' '
    }
}

impl Reversi {
    pub fn board_string(&self) -> (s: String)
        ensures
            s@ == Seq::new(self.board@.len(), |i: int| cell_char(self.board@[i])),
    {
        let mut s = String::new();
        let mut i: usize = 0;
        while i < self.board.len()
            invariant
                i <= self.board@.len(),
                s@ == Seq::new(i as nat, |j: int| cell_char(self.board@[j])),
            decreases self.board@.len() - i,
        {
            let v = self.board[i];
            push_char(&mut s, if v == 0 { 'X' } else if v == 1 { 'O' } else { ' ' });
            assert(s@ =~= Seq::new((i + 1) as nat, |j: int| cell_char(self.board@[j])));
            i += 1;
        }
        s
    }

    /// The winning seat counted from 1, `Draw`, or empty while the game runs.
    pub open spec fn result_text(&self) -> Seq<char> {
        match self.term_spec() {
            Some(Outcome::Win) => dec((self.current + 1) as nat),
            Some(Outcome::Loss) => dec((1 - self.current + 1) as nat),
            Some(Outcome::Draw) => seq!['D', 'r', 'a', 'w'],
            None => seq![],
        }
    }

    pub fn result_string(&self) -> (s: String)
        requires
            self.wf(),
            self.board@.len() <= 65536,
        ensures
            s@ == self.result_text(),
    {
        let mut s = String::new();
        match self.term() {
            Some(Outcome::Win) => push_dec(&mut s, self.current as u64 + 1),
            Some(Outcome::Loss) => push_dec(&mut s, (1 - self.current) as u64 + 1),
            Some(Outcome::Draw) => {
                push_str(&mut s, "Draw");
                proof {
                    reveal_strlit("Draw");
                }
            },
            None => {},
        }
        s
    }

    /// `pass` when a pass is forced, otherwise the placement cells joined by commas.
    pub fn legal_moves_string(&self) -> (s: String)
        requires
            self.wf(),
            self.board@.len() <= 65536,
        ensures
            self.moves_spec() == seq![RvMove::Pass] ==> s@ == seq!['p', 'a', 's', 's'],
            self.moves_spec() != seq![RvMove::Pass] ==> s@ == join_nums(u16s(self.places(self.current as i8)), ','),
    {
        let mine = self.places_for(self.current as i8);
        let mut s = String::new();
        if mine.len() == 0 && self.has_move(1 - self.current as i8) {
            push_str(&mut s, "pass");
            proof {
                reveal_strlit("pass");
                assert(self.moves_spec() == seq![RvMove::Pass]);
            }
            return s;
        }
        push_joined(&mut s, &mine, ',');
        proof {
            if mine@.len() > 0 {
                assert(self.moves_spec()[0] == RvMove::Place(mine@[0]));
                assert(seq![RvMove::Pass][0] == RvMove::Pass);
            } else {
                assert(self.moves_spec().len() == 0);
                assert(seq![RvMove::Pass].len() == 1);
            }
        }
        s
    }

    /// `count0,count1`.
    pub fn scores(&self) -> (s: String)
        requires
            self.wf(),
        ensures
            s@ == dec(self.count_spec(0) as nat) + seq![','] + dec(self.count_spec(1) as nat),
    {
        proof {
            lemma_count_bounds(self.board@, 0, self.board@.len() as int);
            lemma_count_bounds(self.board@, 1, self.board@.len() as int);
        }
        let mut s = String::new();
        push_dec(&mut s, self.count(0) as u64);
        push_char(&mut s, ',');
        push_dec(&mut s, self.count(1) as u64);
        s
    }
}

/// The move that `cs` names on a board of `n` cells: `pass`, or a cell number below `n`.
pub open spec fn parse_move_spec(cs: Seq<char>, n: int) -> Option<RvMove> {
    if cs == seq!['p', 'a', 's', 's'] {
        Some(RvMove::Pass)
    } else {
        match parse_uint(cs, 65535) {
            Some(v) if v < n => Some(RvMove::Place(v as u16)),
            _ => None,
        }
    }
}

pub fn parse_rv_move(mov: &str, n: usize) -> (r: Option<RvMove>)
    ensures
        r == parse_move_spec(mov@, n as int),
        r matches Some(RvMove::Place(i)) ==> (i as int) < n,
{
    let cs = chars_of(mov);
    let pass: [char; 4] = ['p', 'a', 's', 's'];
    if chars_eq(cs.as_slice(), &pass) {
        assert(pass@ =~= seq!['p', 'a', 's', 's']);
        return Some(RvMove::Pass);
    }
    assert(pass@ =~= seq!['p', 'a', 's', 's']);
    proof {
        assert(cs@.subrange(0, cs@.len() as int) =~= mov@);
    }
    match parse_uint_range(&cs, 0, cs.len(), 65535) {
        Some(v) if (v as usize) < n => Some(RvMove::Place(v as u16)),
        _ => None,
    }
}

impl Reversi {
    /// Play the move that `mov` names if it is legal; false, leaving the game
    /// unchanged, otherwise.
    pub fn apply_text(&mut self, mov: &str) -> (ok: bool)
        requires
            old(self).wf(),
            old(self).board@.len() <= 65536,
        ensures
            final(self).wf(),
            ok == (parse_move_spec(mov@, old(self).board@.len() as int) matches Some(m) && old(self).moves_spec().contains(m)),
            !ok ==> *final(self) == *old(self),
            ok ==> final(self).current == 1 - old(self).current,
            ok ==> final(self).board@ == (match parse_move_spec(mov@, old(self).board@.len() as int) {
                Some(RvMove::Place(i)) => old(self).placed(i as int),
                _ => old(self).board@,
            }),
            ok ==> final(self).cols == old(self).cols && final(self).rows == old(self).rows,
            ok ==> final(self).anti == old(self).anti,
    {
        let m = match parse_rv_move(mov, self.board.len()) {
            Some(m) => m,
            None => {
                return false;
            },
        };
        let moves = self.available_moves();
        let mut found = false;
        let mut i: usize = 0;
        while i < moves.len()
            invariant
                i <= moves@.len(),
                found == exists|j: int| 0 <= j < i && moves@[j] == m,
            decreases moves@.len() - i,
        {
            if moves[i] == m {
                found = true;
            }
            i += 1;
        }
        if !found {
            return false;
        }
        self.make_move(&m);
        true
    }
}

proof fn lemma_run_cells(b: Seq<i8>, cols: int, rows: int, r: int, c: int, d: int, v: i8, s0: int, s: int)
    requires
        s0 <= s < s0 + run_from(b, cols, rows, r, c, d, v, s0),
    ensures
        in_grid(rows, cols, at(r, rv_dr(d), s), at(c, rv_dc(d), s)),
        cell(b, cols, at(r, rv_dr(d), s), at(c, rv_dc(d), s)) == v,
    decreases s - s0,
{
    if s > s0 {
        lemma_run_cells(b, cols, rows, r, c, d, v, s0 + 1, s);
    }
}

proof fn lemma_upto_enemy(g: Reversi, r: int, c: int, p: i8, n: int)
    requires
        g.wf(),
        0 <= p <= 1,
        0 <= n <= 8,
    ensures
        forall|t: int| 0 <= t < flips_upto(g.board@, g.cols as int, g.rows as int, r, c, p, n).len() ==> {
            let j = #[trigger] flips_upto(g.board@, g.cols as int, g.rows as int, r, c, p, n)[t];
            0 <= j < g.board@.len() && g.board@[j] == 1 - p
        },
    decreases n,
{
    if n > 0 {
        lemma_upto_enemy(g, r, c, p, n - 1);
        let (b, ci, ri) = (g.board@, g.cols as int, g.rows as int);
        let prev = flips_upto(b, ci, ri, r, c, p, n - 1);
        let rf = ray_flips(b, ci, ri, r, c, n - 1, p);
        assert forall|t: int| 0 <= t < rf.len() implies {
            let j = #[trigger] rf[t];
            0 <= j < b.len() && b[j] == 1 - p
        } by {
            let k = run_from(b, ci, ri, r, c, n - 1, (1 - p) as i8, 1);
            let (x, y) = (at(r, rv_dr(n - 1), t + 1), at(c, rv_dc(n - 1), t + 1));
            assert(rf.len() == k && rf[t] == x * ci + y);
            lemma_run_cells(b, ci, ri, r, c, n - 1, (1 - p) as i8, 1, t + 1);
            lemma_cell_index(ri, ci, x, y);
            lemma_dims(ci, ri);
        }
        assert forall|t: int| 0 <= t < (prev + rf).len() implies {
            let j = #[trigger] (prev + rf)[t];
            0 <= j < b.len() && b[j] == 1 - p
        } by {
            if t >= prev.len() {
                assert((prev + rf)[t] == rf[t - prev.len()]);
            } else {
                assert((prev + rf)[t] == prev[t]);
            }
        }
    }
}

/// Only enemy discs flip: every disc that a placement of `p` flips lies on the board
/// and holds the other side's colour.
pub proof fn lemma_flips_are_enemy(g: Reversi, i: int, p: i8)
    requires
        g.wf(),
        0 <= i < g.board@.len(),
        0 <= p <= 1,
    ensures
        forall|t: int| 0 <= t < g.flips_spec(i, p).len() ==> {
            let j = #[trigger] g.flips_spec(i, p)[t];
            0 <= j < g.board@.len() && g.board@[j] == 1 - p
        },
{
    if g.board@[i] == -1 {
        lemma_upto_enemy(g, i / g.cols as int, i % g.cols as int, p, 8);
    }
}


/// `x` moved `s` steps of a unit step `dx`.
pub proof fn lemma_at(x: int, dx: int, s: int)
    requires
        -1 <= dx <= 1,
    ensures
        at(x, dx, s) == x + dx * s,
{
    if dx == 1 {
        assert(dx * s == s) by (nonlinear_arith) requires dx == 1;
    } else if dx == -1 {
        assert(dx * s == -s) by (nonlinear_arith) requires dx == -1;
    } else {
        assert(dx * s == 0) by (nonlinear_arith) requires dx == 0;
    }
}

/// A cell `k` steps away along a non-zero unit direction that is still on the board
/// lies fewer than `rows + cols` steps away.
proof fn lemma_steps_on_board(cols: int, rows: int, r: int, c: int, dr: int, dc: int, k: int)
    requires
        in_grid(rows, cols, r, c),
        in_grid(rows, cols, r + dr * k, c + dc * k),
        -1 <= dr <= 1,
        -1 <= dc <= 1,
        dr != 0 || dc != 0,
        k >= 0,
    ensures
        k < rows + cols,
{
    assert(k < rows + cols) by (nonlinear_arith)
        requires
            0 <= r < rows,
            0 <= c < cols,
            0 <= r + dr * k < rows,
            0 <= c + dc * k < cols,
            -1 <= dr <= 1,
            -1 <= dc <= 1,
            dr != 0 || dc != 0,
            k >= 0,
    ;
}

/// Along direction `d`, a run of `v` from step `s` that stops at step `k` has `k - s` cells.
proof fn lemma_run_from_exact(b: Seq<i8>, cols: int, rows: int, r: int, c: int, d: int, v: i8, s: int, k: int)
    requires
        0 <= d < 8,
        1 <= s <= k,
        k < rows + cols,
        forall|t: int| s <= t < k ==> in_grid(rows, cols, #[trigger] at(r, rv_dr(d), t), at(c, rv_dc(d), t)) && cell(
            b,
            cols,
            at(r, rv_dr(d), t),
            at(c, rv_dc(d), t),
        ) == v,
        !(in_grid(rows, cols, at(r, rv_dr(d), k), at(c, rv_dc(d), k)) && cell(b, cols, at(r, rv_dr(d), k), at(c, rv_dc(d), k)) == v),
    ensures
        run_from(b, cols, rows, r, c, d, v, s) == k - s,
    decreases k - s,
{
    if s < k {
        lemma_run_from_exact(b, cols, rows, r, c, d, v, s + 1, k);
    }
}

/// The flips of the first `n` directions include those of each direction below `n`.
proof fn lemma_flips_upto_has(b: Seq<i8>, cols: int, rows: int, r: int, c: int, p: i8, n: int, d: int, x: int)
    requires
        0 <= d < n,
        ray_flips(b, cols, rows, r, c, d, p).contains(x),
    ensures
        flips_upto(b, cols, rows, r, c, p, n).contains(x),
    decreases n,
{
    let prev = flips_upto(b, cols, rows, r, c, p, n - 1);
    let ray = ray_flips(b, cols, rows, r, c, n - 1, p);
    if d < n - 1 {
        lemma_flips_upto_has(b, cols, rows, r, c, p, n - 1, d, x);
        let j = choose|j: int| 0 <= j < prev.len() && prev[j] == x;
        assert((prev + ray)[j] == x);
    } else {
        let j = choose|j: int| 0 <= j < ray.len() && ray[j] == x;
        assert((prev + ray)[prev.len() + j] == x);
    }
}

/// Index of the cell `t` steps from cell `i` along `(dr, dc)` on a board `cols` wide.
pub open spec fn line_index(cols: int, i: int, dr: int, dc: int, t: int) -> int {
    (i / cols + dr * t) * cols + (i % cols + dc * t)
}

impl Reversi {
    /// Flipping is complete in all eight directions: when the cells next to an empty
    /// cell along any straight or diagonal line hold a run of the opponent's discs closed
    /// by a disc of `p`, a disc of `p` placed there flips every disc of that run, and the
    /// placement is legal.
    pub proof fn lemma_bracketed_run_flips(&self, i: int, p: i8, dr: int, dc: int, k: int)
        requires
            self.wf(),
            0 <= i < self.board@.len(),
            self.board@[i] == -1,
            0 <= p <= 1,
            -1 <= dr <= 1,
            -1 <= dc <= 1,
            dr != 0 || dc != 0,
            k >= 2,
            forall|t: int|
                1 <= t < k ==> in_grid(self.rows as int, self.cols as int, i / self.cols as int + dr * t, i % self.cols as int + dc * t)
                    && #[trigger] cell(self.board@, self.cols as int, i / self.cols as int + dr * t, i % self.cols as int + dc * t) == 1 - p,
            in_grid(self.rows as int, self.cols as int, i / self.cols as int + dr * k, i % self.cols as int + dc * k),
            cell(self.board@, self.cols as int, i / self.cols as int + dr * k, i % self.cols as int + dc * k) == p,
        ensures
            forall|t: int| 1 <= t < k ==> self.flips_spec(i, p).contains(#[trigger] line_index(self.cols as int, i, dr, dc, t)),
            self.legal_spec(i, p),
    {
        let (b, cols, rows) = (self.board@, self.cols as int, self.rows as int);
        crate::capturego::lemma_cell_arith(cols, rows, i);
        let (r, c) = (i / cols, i % cols);
        let d: int = if dr == 0 {
            if dc == 1 { 0 } else { 1 }
        } else if dc == 0 {
            if dr == 1 { 2 } else { 3 }
        } else if dr == 1 {
            if dc == 1 { 4 } else { 5 }
        } else {
            if dc == 1 { 6 } else { 7 }
        };
        assert(rv_dr(d) == dr && rv_dc(d) == dc);
        assert forall|t: int| #![trigger at(r, rv_dr(d), t)] true implies at(r, rv_dr(d), t) == r + dr * t && at(c, rv_dc(d), t) == c + dc * t by {
            lemma_at(r, dr, t);
            lemma_at(c, dc, t);
        }
        lemma_steps_on_board(cols, rows, r, c, dr, dc, k);
        assert(((1 - p) as i8) as int == 1 - p);
        assert forall|t: int| 1 <= t < k implies in_grid(rows, cols, #[trigger] at(r, rv_dr(d), t), at(c, rv_dc(d), t)) && cell(
            b,
            cols,
            at(r, rv_dr(d), t),
            at(c, rv_dc(d), t),
        ) == (1 - p) as i8 by {
            assert(cell(b, cols, r + dr * t, c + dc * t) == 1 - p);
        }
        assert(at(r, rv_dr(d), k) == r + dr * k);
        lemma_run_from_exact(b, cols, rows, r, c, d, (1 - p) as i8, 1, k);
        let ray = ray_flips(b, cols, rows, r, c, d, p);
        assert(at(r, rv_dr(d), k - 1 + 1) == r + dr * k);
        assert(ray.len() == k - 1);
        assert forall|t: int| 1 <= t < k implies self.flips_spec(i, p).contains(#[trigger] line_index(cols, i, dr, dc, t)) by {
            assert(at(r, rv_dr(d), (t - 1) + 1) == r + dr * t);
            assert(at(c, rv_dc(d), (t - 1) + 1) == c + dc * t);
            assert(ray[t - 1] == (r + dr * t) * cols + (c + dc * t));
            lemma_flips_upto_has(b, cols, rows, r, c, p, 8, d, (r + dr * t) * cols + (c + dc * t));
        }
        assert(self.flips_spec(i, p).contains(line_index(cols, i, dr, dc, 1)));
    }
}


/// Along direction `d`, the run of `v` counted from step `s` covers cells that are on the
/// board and hold `v`.
proof fn lemma_run_from_cells(b: Seq<i8>, cols: int, rows: int, r: int, c: int, d: int, v: i8, s: int, t: int)
    requires
        s <= t < s + run_from(b, cols, rows, r, c, d, v, s),
    ensures
        in_grid(rows, cols, at(r, rv_dr(d), t), at(c, rv_dc(d), t)),
        cell(b, cols, at(r, rv_dr(d), t), at(c, rv_dc(d), t)) == v,
    decreases rows + cols - s,
{
    if s < rows + cols && t > s {
        lemma_run_from_cells(b, cols, rows, r, c, d, v, s + 1, t);
    }
}

/// Some direction below `n` flips `x`.
proof fn lemma_flips_upto_from(b: Seq<i8>, cols: int, rows: int, r: int, c: int, p: i8, n: int, x: int) -> (d: int)
    requires
        flips_upto(b, cols, rows, r, c, p, n).contains(x),
    ensures
        0 <= d < n,
        ray_flips(b, cols, rows, r, c, d, p).contains(x),
    decreases n,
{
    let prev = flips_upto(b, cols, rows, r, c, p, n - 1);
    let ray = ray_flips(b, cols, rows, r, c, n - 1, p);
    let j = choose|j: int| 0 <= j < (prev + ray).len() && (prev + ray)[j] == x;
    if j < prev.len() {
        assert(prev[j] == x);
        lemma_flips_upto_from(b, cols, rows, r, c, p, n - 1, x)
    } else {
        assert(ray[j - prev.len()] == x);
        n - 1
    }
}

/// The cells next to cell `i` along the unit direction `(dr, dc)` hold a run of the
/// opponent's discs, `k - 1` long, closed at distance `k` by a disc of `p`.
pub open spec fn bracket(b: Seq<i8>, cols: int, rows: int, i: int, dr: int, dc: int, k: int, p: i8) -> bool {
    &&& -1 <= dr <= 1
    &&& -1 <= dc <= 1
    &&& (dr != 0 || dc != 0)
    &&& k >= 2
    &&& forall|t: int|
        1 <= t < k ==> in_grid(rows, cols, i / cols + dr * t, i % cols + dc * t) && #[trigger] cell(b, cols, i / cols + dr * t, i % cols + dc * t)
            == 1 - p
    &&& in_grid(rows, cols, i / cols + dr * k, i % cols + dc * k)
    &&& cell(b, cols, i / cols + dr * k, i % cols + dc * k) == p
}

impl Reversi {
    /// Flipping is sound: every disc that a placement flips lies on a straight or
    /// diagonal run of the opponent's discs that starts next to the placed cell and is
    /// closed by a disc of the mover.
    pub proof fn lemma_flipped_discs_are_bracketed(&self, i: int, p: i8, x: int)
        requires
            self.wf(),
            0 <= i < self.board@.len(),
            0 <= p <= 1,
            self.flips_spec(i, p).contains(x),
        ensures
            exists|dr: int, dc: int, t: int, k: int|
                #[trigger] bracket(self.board@, self.cols as int, self.rows as int, i, dr, dc, k, p) && 1 <= t < k && x
                    == #[trigger] line_index(self.cols as int, i, dr, dc, t),
    {
        let (b, cols, rows) = (self.board@, self.cols as int, self.rows as int);
        let (r, c) = (i / cols, i % cols);
        let d = lemma_flips_upto_from(b, cols, rows, r, c, p, 8, x);
        let (dr, dc) = (rv_dr(d), rv_dc(d));
        let k0 = run_from(b, cols, rows, r, c, d, (1 - p) as i8, 1);
        let ray = ray_flips(b, cols, rows, r, c, d, p);
        let j = choose|j: int| 0 <= j < ray.len() && ray[j] == x;
        assert forall|t: int| #![trigger at(r, rv_dr(d), t)] true implies at(r, rv_dr(d), t) == r + dr * t && at(c, rv_dc(d), t) == c + dc * t by {
            lemma_at(r, dr, t);
            lemma_at(c, dc, t);
        }
        assert(at(r, rv_dr(d), k0 + 1) == r + dr * (k0 + 1));
        assert(at(c, rv_dc(d), k0 + 1) == c + dc * (k0 + 1));
        assert forall|t: int| 1 <= t < k0 + 1 implies in_grid(rows, cols, r + dr * t, c + dc * t) && #[trigger] cell(b, cols, r + dr * t, c + dc * t)
            == 1 - p by {
            lemma_run_from_cells(b, cols, rows, r, c, d, (1 - p) as i8, 1, t);
            assert(at(r, rv_dr(d), t) == r + dr * t);
        }
        assert(bracket(b, cols, rows, i, dr, dc, k0 + 1, p));
        assert(at(r, rv_dr(d), j + 1) == r + dr * (j + 1));
        assert(at(c, rv_dc(d), j + 1) == c + dc * (j + 1));
        assert(x == line_index(cols, i, dr, dc, j + 1));
    }
}

} // verus!
