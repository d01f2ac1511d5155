//! Fox and Hounds on a checkerboard: the hounds start on the top row's dark squares
//! and move diagonally forward only; the fox starts on the bottom row and moves
//! diagonally either way. The fox wins by reaching the top row; a side that cannot
//! move loses.
use vstd::prelude::*;
use crate::outcome::Outcome;
use crate::text::{push_char, push_dec, push_str, dec, join_nums, u16s, parse_list, parse_u16_list, chars_of, push_joined, lemma_parse_list_join};

verus! {

#[derive(Clone, Copy, Debug, PartialEq, Eq, Structural)]
pub struct FhMove {
    pub from: u16,
    pub to: u16,
}

#[derive(Clone, Debug)]
pub struct FoxHounds {
    pub cols: usize,
    pub rows: usize,
    /// -1 empty, 0 the fox, 1 a hound.
    pub grid: Vec<i8>,
    pub current: u8,
}

/// Distance of column `c` from the middle column `cols / 2`.
pub open spec fn mid_dist(c: int, cols: int) -> int {
    if c - cols / 2 < 0 {
        cols / 2 - c
    } else {
        c - cols / 2
    }
}

/// The fox's starting column: the dark square of the bottom row `last` nearest the
/// middle (the first such when two tie), among the first `k` columns; 0 when none.
pub open spec fn fox_col_upto(last: int, cols: int, k: int) -> int
    decreases k,
{
    if k <= 0 {
        0
    } else {
        let prev = fox_col_upto(last, cols, k - 1);
        let c = k - 1;
        if (last + c) % 2 == 1 && (!has_dark_upto(last, cols, k - 1) || mid_dist(c, cols) < mid_dist(prev, cols)) {
            c
        } else {
            prev
        }
    }
}

/// Some column among the first `k` is a dark square of row `last` (columns alternate).
pub open spec fn has_dark_upto(last: int, cols: int, k: int) -> bool {
    k >= 2 || (k == 1 && last % 2 == 1)
}

impl FoxHounds {
    pub open spec fn wf(&self) -> bool {
        &&& 1 <= self.cols
        &&& 1 <= self.rows
        &&& self.grid@.len() == self.cols * self.rows
        &&& self.grid@.len() <= 65536
        &&& self.current <= 1
        &&& self.grid@.contains(0i8)
    }

    /// The step of the piece on `from` by `(dr, dc)`, if it lands on an empty square.
    pub open spec fn step_move(&self, from: int, dr: int, dc: int) -> Seq<FhMove> {
        let (r, c) = (from / self.cols as int, from % self.cols as int);
        let (nr, nc) = (r + dr, c + dc);
        if 0 <= nr < self.rows && 0 <= nc < self.cols && self.grid@[nr * self.cols + nc] == -1 {
            seq![FhMove { from: from as u16, to: (nr * self.cols + nc) as u16 }]
        } else {
            seq![]
        }
    }

    /// The steps of the piece on `from`: the fox diagonally either way (up first),
    /// a hound diagonally forward (down the board).
    pub open spec fn from_moves(&self, from: int) -> Seq<FhMove> {
        if self.current == 0 {
            self.step_move(from, -1, -1) + self.step_move(from, -1, 1) + self.step_move(from, 1, -1) + self.step_move(from, 1, 1)
        } else {
            self.step_move(from, 1, -1) + self.step_move(from, 1, 1)
        }
    }

    pub open spec fn moves_upto(&self, n: int) -> Seq<FhMove>
        decreases n,
    {
        if n <= 0 {
            seq![]
        } else {
            self.moves_upto(n - 1) + if self.grid@[n - 1] == self.current as i8 {
                self.from_moves(n - 1)
            } else {
                seq![]
            }
        }
    }

    /// The legal moves of the side to move, square by square.
    pub open spec fn moves_spec(&self) -> Seq<FhMove> {
        self.moves_upto(self.grid@.len() as int)
    }

    /// The row of the fox (the first fox square).
    pub open spec fn fox_row_spec(&self) -> int {
        self.grid@.index_of_first(0i8)->0 / self.cols as int
    }

    /// Value for the side to move once the game is over: the fox home is a win for the
    /// fox; a side that cannot move loses.
    pub open spec fn term_spec(&self) -> Option<Outcome> {
        if self.fox_row_spec() == 0 {
            Some(if self.current == 0 { Outcome::Win } else { Outcome::Loss })
        } else if self.moves_spec().len() == 0 {
            Some(Outcome::Loss)
        } else {
            None
        }
    }
}

impl FoxHounds {
    /// Hounds on the dark squares of the top row, the fox on the bottom row's dark
    /// square nearest the middle.
    pub fn new(cols: usize, rows: usize) -> (g: Self)
        requires
            cols >= 1,
            rows >= 1,
            cols * rows <= 65536,
        ensures
            g.wf(),
            g.cols == cols,
            g.rows == rows,
            g.current == 0,
            forall|i: int| 0 <= i < cols * rows ==> #[trigger] g.grid@[i] == if i == (rows - 1) * cols + fox_col_upto(rows - 1, cols as int, cols as int) {
                0i8
            } else if i < cols && i % 2 == 1 {
                1i8
            } else {
                -1i8
            },
    {
        let n = cols * rows;
        let mut grid: Vec<i8> = Vec::new();
        let mut i: usize = 0;
        while i < n
            invariant
                i <= n,
                n == cols * rows,
                grid@.len() == i,
                forall|j: int| 0 <= j < i ==> #[trigger] grid@[j] == if j < cols && j % 2 == 1 { 1i8 } else { -1i8 },
            decreases n - i,
        {
            grid.push(if i < cols && i % 2 == 1 { 1 } else { -1 });
            i += 1;
        }
        let last = rows - 1;
        assert(rows <= 65536 && cols <= 65536) by (nonlinear_arith)
            requires
                cols * rows <= 65536,
                cols >= 1,
                rows >= 1,
        ;
        let mut fox_c: usize = 0;
        let mut best: usize = usize::MAX;
        let mut c: usize = 0;
        while c < cols
            invariant
                c <= cols,
                rows <= 65536 && cols <= 65536,
                cols * rows <= 65536,
                last + 1 == rows,
                rows >= 1,
                cols >= 1,
                fox_c < cols,
                fox_c as int == fox_col_upto(last as int, cols as int, c as int),
                has_dark_upto(last as int, cols as int, c as int) ==> best as int == mid_dist(fox_c as int, cols as int),
                !has_dark_upto(last as int, cols as int, c as int) ==> best == usize::MAX && fox_c == 0,
            decreases cols - c,
        {
            if (last + c) % 2 == 1 {
                let d: usize = if c < cols / 2 { cols / 2 - c } else { c - cols / 2 };
                if d < best {
                    best = d;
                    fox_c = c;
                }
            }
            c += 1;
        }
        assert(last * cols + fox_c < cols * rows) by (nonlinear_arith)
            requires
                last + 1 == rows,
                fox_c < cols,
        ;
        grid.set(last * cols + fox_c, 0);
        assert(grid@[last * cols + fox_c] == 0);
        FoxHounds { cols, rows, grid, current: 0 }
    }
}

impl FoxHounds {
    /// The row of the fox.
    pub fn fox_row(&self) -> (r: usize)
        requires
            self.wf(),
        ensures
            r == self.fox_row_spec(),
    {
        proof {
            self.grid@.index_of_first_ensures(0i8);
        }
        let mut i: usize = 0;
        while i < self.grid.len() && self.grid[i] != 0
            invariant
                self.wf(),
                i <= self.grid@.len(),
                forall|j: int| 0 <= j < i ==> self.grid@[j] != 0,
            decreases self.grid@.len() - i,
        {
            i += 1;
        }
        proof {
            let f = self.grid@.index_of_first(0i8)->0;
            if i == self.grid@.len() {
                assert(self.grid@[f] == 0);
            }
            if f < i {
                assert(self.grid@[f] != 0);
            }
            if f > i {
                assert(self.grid@[i as int] != 0);
            }
        }
        i / self.cols
    }

    /// Push the step of the piece on `from` by `(dr, dc)` if it lands on an empty square.
    fn push_step(&self, from: usize, dr: isize, dc: isize, v: &mut Vec<FhMove>)
        requires
            self.wf(),
            from < self.grid@.len(),
            -1 <= dr <= 1,
            -1 <= dc <= 1,
        ensures
            final(v)@ == old(v)@ + self.step_move(from as int, dr as int, dc as int),
    {
        let r = from / self.cols;
        let c = from % self.cols;
        assert(r < self.rows && self.rows <= 65536 && self.cols <= 65536) by (nonlinear_arith)
            requires
                from < self.cols * self.rows,
                r == from / self.cols,
                self.cols >= 1,
                self.rows >= 1,
                self.cols * self.rows <= 65536,
        ;
        let nr = r as isize + dr;
        let nc = c as isize + dc;
        if nr < 0 || nr >= self.rows as isize || nc < 0 || nc >= self.cols as isize {
            return;
        }
        assert(nr * self.cols + nc < self.cols * self.rows) by (nonlinear_arith)
            requires
                0 <= nr < self.rows,
                0 <= nc < self.cols,
        ;
        let to = nr as usize * self.cols + nc as usize;
        if self.grid[to] == -1 {
            v.push(FhMove { from: from as u16, to: to as u16 });
        }
    }

    /// The legal moves of the side to move.
    pub fn gen(&self) -> (v: Vec<FhMove>)
        requires
            self.wf(),
        ensures
            v@ == self.moves_spec(),
    {
        let mut v: Vec<FhMove> = Vec::new();
        let mut from: usize = 0;
        while from < self.grid.len()
            invariant
                self.wf(),
                from <= self.grid@.len(),
                v@ == self.moves_upto(from as int),
            decreases self.grid@.len() - from,
        {
            let ghost v0 = v@;
            if self.grid[from] == self.current as i8 {
                if self.current == 0 {
                    self.push_step(from, -1, -1, &mut v);
                    self.push_step(from, -1, 1, &mut v);
                }
                self.push_step(from, 1, -1, &mut v);
                self.push_step(from, 1, 1, &mut v);
            }
            assert(v@ =~= self.moves_upto(from + 1));
            from += 1;
        }
        v
    }

    pub fn term(&self) -> (t: Option<Outcome>)
        requires
            self.wf(),
        ensures
            t == self.term_spec(),
    {
        if self.fox_row() == 0 {
            return Some(if self.current == 0 { Outcome::Win } else { Outcome::Loss });
        }
        if self.gen().len() == 0 {
            Some(Outcome::Loss)
        } else {
            None
        }
    }

    pub fn current_player(&self) -> (p: u8)
        ensures
            p == self.current,
    {
        self.current
    }

    /// A legal move takes a piece of the side to move to an empty square.
    proof fn lemma_step_shape(&self, from: int, dr: int, dc: int, m: FhMove)
        requires
            self.wf(),
            0 <= from < self.grid@.len(),
            self.step_move(from, dr, dc).contains(m),
        ensures
            m.from as int == from,
            (m.to as int) < self.grid@.len(),
            self.grid@[m.to as int] == -1,
            (m.to as int) / (self.cols as int) == from / (self.cols as int) + dr,
    {
        let (r, c) = (from / self.cols as int, from % self.cols as int);
        let (nr, nc) = (r + dr, c + dc);
        assert(m == self.step_move(from, dr, dc)[0]);
        vstd::arithmetic::div_mod::lemma_fundamental_div_mod_converse(nr * self.cols + nc, self.cols as int, nr, nc);
        assert(0 <= nr * self.cols + nc < self.cols * self.rows) by (nonlinear_arith)
            requires
                0 <= nr < self.rows,
                0 <= nc < self.cols,
        ;
    }

    proof fn lemma_upto_shape(&self, n: int, m: FhMove)
        requires
            self.wf(),
            0 <= n <= self.grid@.len(),
            self.moves_upto(n).contains(m),
        ensures
            (m.from as int) < self.grid@.len(),
            (m.to as int) < self.grid@.len(),
            self.grid@[m.from as int] == self.current as i8,
            self.grid@[m.to as int] == -1,
            self.current == 1 ==> (m.to as int) / (self.cols as int) == (m.from as int) / (self.cols as int) + 1,
        decreases n,
    {
        if n > 0 {
            let a = self.moves_upto(n - 1);
            if a.contains(m) {
                self.lemma_upto_shape(n - 1, m);
            } else {
                let f = n - 1;
                let b = if self.grid@[f] == self.current as i8 { self.from_moves(f) } else { seq![] };
                let i = choose|i: int| 0 <= i < (a + b).len() && (a + b)[i] == m;
                assert(b[i - a.len()] == m);
                assert(b.contains(m));
                let s1 = self.step_move(f, -1, -1);
                let s2 = self.step_move(f, -1, 1);
                let s3 = self.step_move(f, 1, -1);
                let s4 = self.step_move(f, 1, 1);
                let q = i - a.len();
                if self.current == 0 {
                    if q < s1.len() {
                        assert(s1[q] == m);
                        self.lemma_step_shape(f, -1, -1, m);
                    } else if q < s1.len() + s2.len() {
                        assert(s2[q - s1.len()] == m);
                        self.lemma_step_shape(f, -1, 1, m);
                    } else if q < s1.len() + s2.len() + s3.len() {
                        assert(s3[q - s1.len() - s2.len()] == m);
                        self.lemma_step_shape(f, 1, -1, m);
                    } else {
                        assert(s4[q - s1.len() - s2.len() - s3.len()] == m);
                        self.lemma_step_shape(f, 1, 1, m);
                    }
                } else {
                    if q < s3.len() {
                        assert(s3[q] == m);
                        self.lemma_step_shape(f, 1, -1, m);
                    } else {
                        assert(s4[q - s3.len()] == m);
                        self.lemma_step_shape(f, 1, 1, m);
                    }
                }
            }
        }
    }

    /// `next` is this position after the move `m`.
    pub open spec fn moved(&self, next: FoxHounds, m: FhMove) -> bool {
        &&& next.cols == self.cols
        &&& next.rows == self.rows
        &&& next.grid@ == self.grid@.update(m.to as int, self.grid@[m.from as int]).update(m.from as int, -1i8)
        &&& next.current == 1 - self.current
    }

    /// Play the legal move `m`.
    pub fn make_move(&mut self, m: &FhMove)
        requires
            old(self).wf(),
            old(self).moves_spec().contains(*m),
        ensures
            final(self).wf(),
            old(self).moved(*final(self), *m),
    {
        proof {
            old(self).lemma_upto_shape(old(self).grid@.len() as int, *m);
        }
        let p = self.grid[m.from as usize];
        self.grid.set(m.to as usize, p);
        self.grid.set(m.from as usize, -1);
        self.current = 1 - self.current;
        proof {
            let g0 = old(self).grid@;
            let f = choose|f: int| 0 <= f < g0.len() && g0[f] == 0i8;
            if f == m.from as int {
                assert(self.grid@[m.to as int] == 0);
            } else {
                assert(f != m.to as int);
                assert(self.grid@[f] == 0);
            }
        }
    }
}

/// Text of a move: `from-to`.
pub open spec fn move_text(m: FhMove) -> Seq<char> {
    join_nums(seq![m.from as int, m.to as int], '-')
}

pub open spec fn moves_text(ms: Seq<FhMove>) -> Seq<char>
    decreases ms.len(),
{
    if ms.len() == 0 {
        seq![]
    } else if ms.len() == 1 {
        move_text(ms[0])
    } else {
        moves_text(ms.drop_last()) + seq![','] + move_text(ms.last())
    }
}

/// The move named by `cs`: two numbers joined by `-`, each read as a `u16`.
pub open spec fn parse_move_spec(cs: Seq<char>) -> Option<FhMove> {
    match parse_list(cs, '-', 65535) {
        Some(v) => if v.len() == 2 {
            Some(FhMove { from: v[0] as u16, to: v[1] as u16 })
        } else {
            None
        },
        None => None,
    }
}

impl FhMove {
    pub fn encode(&self) -> (s: String)
        ensures
            s@ == move_text(*self),
    {
        let v: Vec<u16> = vec![self.from, self.to];
        let mut s = String::new();
        push_joined(&mut s, &v, '-');
        assert(u16s(v@) =~= seq![self.from as int, self.to as int]);
        s
    }
}

/// The text of a move reads back as that move.
pub proof fn lemma_move_text_round_trip(m: FhMove)
    ensures
        parse_move_spec(move_text(m)) == Some(m),
{
    lemma_parse_list_join(seq![m.from as int, m.to as int], '-', 65535);
}

/// Square character: `X` the fox, `O` a hound, ` ` empty.
pub open spec fn piece_char(v: i8) -> char {
    if v == 0 {
        'X'
    } else if v == 1 {
        'O'
    } else {
        ' '
    }
}

impl FoxHounds {
    pub open spec fn board_text(&self) -> Seq<char> {
        Seq::new(self.grid@.len(), |i: int| piece_char(self.grid@[i]))
    }

    pub fn board_string(&self) -> (s: String)
        ensures
            s@ == self.board_text(),
    {
        let mut s = String::new();
        let mut i: usize = 0;
        while i < self.grid.len()
            invariant
                i <= self.grid@.len(),
                s@ == Seq::new(i as nat, |j: int| piece_char(self.grid@[j])),
            decreases self.grid@.len() - i,
        {
            let v = self.grid[i];
            push_char(&mut s, if v == 0 { 'X' } else if v == 1 { 'O' } else { ' ' });
            assert(s@ =~= Seq::new((i + 1) as nat, |j: int| piece_char(self.grid@[j])));
            i += 1;
        }
        s
    }

    /// The result: `1` when the fox is home, else the side that can still move counted
    /// from 1; empty while running.
    pub open spec fn result_text(&self) -> Seq<char> {
        if self.term_spec() is None {
            seq![]
        } else if self.fox_row_spec() == 0 {
            seq!['1']
        } else {
            dec((2 - self.current) as nat)
        }
    }

    pub fn result_string(&self) -> (s: String)
        requires
            self.wf(),
        ensures
            s@ == self.result_text(),
    {
        let mut s = String::new();
        if self.term().is_none() {
            return s;
        }
        if self.fox_row() == 0 {
            push_char(&mut s, '1');
            return s;
        }
        push_dec(&mut s, (2 - self.current) as u64);
        s
    }

    pub fn legal_moves_string(&self) -> (s: String)
        requires
            self.wf(),
        ensures
            s@ == moves_text(self.moves_spec()),
    {
        let moves = self.gen();
        let mut s = String::new();
        let mut i: usize = 0;
        while i < moves.len()
            invariant
                i <= moves@.len(),
                s@ == moves_text(moves@.take(i as int)),
            decreases moves@.len() - i,
        {
            if i > 0 {
                push_char(&mut s, ',');
            }
            let t = moves[i].encode();
            push_str(&mut s, t.as_str());
            proof {
                assert(moves@.take(i + 1).drop_last() =~= moves@.take(i as int));
            }
            i += 1;
        }
        assert(moves@.take(moves@.len() as int) =~= moves@);
        s
    }

    /// Read `mov` and play it if legal; false, leaving the game unchanged, otherwise.
    pub fn apply_text(&mut self, mov: &str) -> (ok: bool)
        requires
            old(self).wf(),
        ensures
            final(self).wf(),
            ok == (parse_move_spec(mov@) matches Some(m) && old(self).moves_spec().contains(m)),
            !ok ==> *final(self) == *old(self),
            ok ==> old(self).moved(*final(self), parse_move_spec(mov@)->0),
    {
        let cs = chars_of(mov);
        let parts = match parse_u16_list(&cs, '-') {
            Some(p) => p,
            None => {
                return false;
            },
        };
        if parts.len() != 2 {
            return false;
        }
        let m = FhMove { from: parts[0], to: parts[1] };
        proof {
            assert(parse_move_spec(mov@) == Some(m));
        }
        let moves = self.gen();
        let mut found = false;
        let mut i: usize = 0;
        while i < moves.len()
            invariant
                i <= moves@.len(),
                found == exists|j: int| 0 <= j < i && moves@[j] == m,
            decreases moves@.len() - i,
        {
            if moves[i] == m {
                found = true;
            }
            i += 1;
        }
        if !found {
            return false;
        }
        self.make_move(&m);
        true
    }
}

/// Hounds only move forward: every hound move goes one row down the board.
pub proof fn lemma_hounds_forward(g: FoxHounds, m: FhMove)
    requires
        g.wf(),
        g.current == 1,
        g.moves_spec().contains(m),
    ensures
        (m.to as int) / (g.cols as int) == (m.from as int) / (g.cols as int) + 1,
{
    g.lemma_upto_shape(g.grid@.len() as int, m);
}


impl FoxHounds {
    proof fn lemma_moves_upto_has(&self, n: int, i: int, m: FhMove)
        requires
            0 <= i < n,
            self.grid@[i] == self.current as i8,
            self.from_moves(i).contains(m),
        ensures
            self.moves_upto(n).contains(m),
        decreases n,
    {
        let prev = self.moves_upto(n - 1);
        let last = if self.grid@[n - 1] == self.current as i8 { self.from_moves(n - 1) } else { seq![] };
        if i < n - 1 {
            self.lemma_moves_upto_has(n - 1, i, m);
            let x = choose|x: int| 0 <= x < prev.len() && prev[x] == m;
            assert((prev + last)[x] == m);
        } else {
            let x = choose|x: int| 0 <= x < last.len() && last[x] == m;
            assert((prev + last)[prev.len() + x] == m);
        }
    }

    /// Steps are complete: the fox steps diagonally in any of the four directions, and a
    /// hound diagonally down the board, onto any empty square; each such step of the
    /// side to move is generated.
    pub proof fn lemma_every_step_generated(&self, r: int, c: int, dr: int, dc: int)
        requires
            self.wf(),
            0 <= r < self.rows,
            0 <= c < self.cols,
            dr == 1 || dr == -1,
            dc == 1 || dc == -1,
            self.current == 1 ==> dr == 1,
            0 <= r + dr < self.rows,
            0 <= c + dc < self.cols,
            self.grid@[r * self.cols + c] == self.current as i8,
            self.grid@[(r + dr) * self.cols + (c + dc)] == -1,
        ensures
            self.moves_spec().contains(FhMove { from: (r * self.cols + c) as u16, to: ((r + dr) * self.cols + (c + dc)) as u16 }),
    {
        let (cols, rows) = (self.cols as int, self.rows as int);
        let i = r * cols + c;
        crate::gridlib::lemma_cell_index(rows, cols, r, c);
        vstd::arithmetic::div_mod::lemma_fundamental_div_mod_converse(i, cols, r, c);
        let m = FhMove { from: i as u16, to: ((r + dr) * cols + (c + dc)) as u16 };
        assert(self.step_move(i, dr, dc) == seq![m]);
        if self.current == 0 {
            let (a, b, e, f) = (self.step_move(i, -1, -1), self.step_move(i, -1, 1), self.step_move(i, 1, -1), self.step_move(i, 1, 1));
            assert(self.from_moves(i) == a + b + e + f);
            if dr == -1 && dc == -1 {
                assert((a + b + e + f)[0] == m);
            } else if dr == -1 {
                assert((a + b + e + f)[a.len() as int] == m);
            } else if dc == -1 {
                assert((a + b + e + f)[(a.len() + b.len()) as int] == m);
            } else {
                assert((a + b + e + f)[(a.len() + b.len() + e.len()) as int] == m);
            }
        } else {
            let (e, f) = (self.step_move(i, 1, -1), self.step_move(i, 1, 1));
            assert(self.from_moves(i) == e + f);
            if dc == -1 {
                assert((e + f)[0] == m);
            } else {
                assert((e + f)[e.len() as int] == m);
            }
        }
        self.lemma_moves_upto_has(self.grid@.len() as int, i, m);
    }
}

} // verus!
