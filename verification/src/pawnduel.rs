//! PawnDuel (Breakthrough): pawns step one row forward, straight onto an empty
//! cell or diagonally onto an empty or enemy cell (capturing). Reaching the far row
//! or wiping out the enemy wins; a side without a move loses.
use vstd::prelude::*;
use crate::capturego::lemma_cell_arith;
use crate::outcome::Outcome;
use crate::text::{push_char, push_str, push_dec, push_joined, join_nums, u16s, dec, chars_of, parse_u16_list, parse_list, lemma_parse_list_join};

verus! {

#[derive(Clone, Copy, Debug, PartialEq, Eq, Structural)]
pub struct PdMove {
    pub from: u16,
    pub to: u16,
}

#[derive(Clone, Debug)]
pub struct PawnDuel {
    /// -1 empty, 0 = seat 0 (moves up), 1 = seat 1 (moves down).
    pub board: Vec<i8>,
    pub cols: usize,
    pub rows: usize,
    pub current: u8,
    /// The square a pawn crossed on the previous ply's double step, capturable en
    /// passant on this ply only.
    pub ep_target: Option<u16>,
    pub double_step: bool,
    pub en_passant: bool,
}

pub open spec fn count_upto(b: Seq<i8>, v: i8, n: int) -> int
    decreases n,
{
    if n <= 0 {
        0
    } else {
        count_upto(b, v, n - 1) + if b[n - 1] == v { 1int } else { 0int }
    }
}

proof fn lemma_count_zero(b: Seq<i8>, v: i8, n: int)
    requires
        0 <= n <= b.len(),
    ensures
        count_upto(b, v, n) >= 0,
        count_upto(b, v, n) == 0 <==> forall|j: int| 0 <= j < n ==> #[trigger] b[j] != v,
    decreases n,
{
    if n > 0 {
        lemma_count_zero(b, v, n - 1);
    }
}

impl PawnDuel {
    pub open spec fn wf(&self) -> bool {
        &&& 1 <= self.cols <= 1024
        &&& 1 <= self.rows <= 1024
        &&& self.board@.len() == self.cols * self.rows
        &&& self.board@.len() <= 65536
        &&& self.current <= 1
    }

    /// The moves of the pawn of the side to move on cell `i` (none if there is no
    /// such pawn): one step forward onto an empty square, then two from the starting
    /// rank when allowed and both squares are empty, then diagonally left and right
    /// onto an enemy pawn or onto the en-passant square.
    pub open spec fn cell_moves(&self, i: int) -> Seq<PdMove> {
        let (cols, rows, b) = (self.cols as int, self.rows as int, self.board@);
        let (r, c) = (i / cols, i % cols);
        let nr = if self.current == 0 { r - 1 } else { r + 1 };
        let nr2 = if self.current == 0 { r - 2 } else { r + 2 };
        let start = if self.current == 0 { rows - 1 } else { 0 };
        let me = self.current as i8;
        let from = i as u16;
        if b[i] != me || nr < 0 || nr >= rows {
            seq![]
        } else {
            (if b[nr * cols + c] == -1 {
                seq![PdMove { from, to: (nr * cols + c) as u16 }] + if self.double_step && r == start && 0 <= nr2 < rows
                    && b[nr2 * cols + c] == -1 {
                    seq![PdMove { from, to: (nr2 * cols + c) as u16 }]
                } else {
                    seq![]
                }
            } else {
                seq![]
            }) + self.diag(i, nr, c - 1) + self.diag(i, nr, c + 1)
        }
    }

    /// The diagonal move from `i` onto `(nr, nc)`: onto an enemy pawn, or onto the
    /// empty en-passant square when that rule is on.
    pub open spec fn diag(&self, i: int, nr: int, nc: int) -> Seq<PdMove> {
        let (cols, b) = (self.cols as int, self.board@);
        let tgt = nr * cols + nc;
        if nc < 0 || nc >= cols {
            seq![]
        } else if b[tgt] == 1 - self.current {
            seq![PdMove { from: i as u16, to: tgt as u16 }]
        } else if self.en_passant && b[tgt] == -1 && self.ep_target == Some(tgt as u16) {
            seq![PdMove { from: i as u16, to: tgt as u16 }]
        } else {
            seq![]
        }
    }

    pub open spec fn gen_upto(&self, n: int) -> Seq<PdMove>
        decreases n,
    {
        if n <= 0 {
            seq![]
        } else {
            self.gen_upto(n - 1) + self.cell_moves(n - 1)
        }
    }

    pub open spec fn gen_spec(&self) -> Seq<PdMove> {
        self.gen_upto(self.board@.len() as int)
    }

    pub open spec fn row_cell(&self, row: int, c: int) -> i8 {
        self.board@[row * self.cols + c]
    }

    /// Some cell of row `row` holds `p`.
    pub open spec fn in_row(&self, row: int, p: i8) -> bool {
        exists|c: int| 0 <= c < self.cols && #[trigger] self.row_cell(row, c) == p
    }

    /// X has reached the top row (`p == 0`), or O the bottom row (`p == 1`).
    pub open spec fn home(&self, p: i8) -> bool {
        if p == 0 {
            self.in_row(0, 0)
        } else {
            self.in_row(self.rows - 1, 1)
        }
    }

    pub open spec fn count_spec(&self, p: i8) -> int {
        count_upto(self.board@, p, self.board@.len() as int)
    }

    /// X wins on reaching the top row or when O has no pawn, then O likewise on the
    /// bottom row; a side to move without a move loses.
    pub open spec fn term_spec(&self) -> Option<Outcome> {
        if self.home(0) || self.count_spec(1) == 0 {
            Some(if self.current == 0 { Outcome::Win } else { Outcome::Loss })
        } else if self.home(1) || self.count_spec(0) == 0 {
            Some(if self.current == 1 { Outcome::Win } else { Outcome::Loss })
        } else if self.gen_spec().len() == 0 {
            Some(Outcome::Loss)
        } else {
            None
        }
    }

    pub open spec fn moves_spec(&self) -> Seq<PdMove> {
        if self.term_spec() is Some {
            seq![]
        } else {
            self.gen_spec()
        }
    }
}

/// The files and ranks of a table: files clamped to 3..=10, ranks to 3..=8.
pub fn table_dims(files: u32, ranks: u32) -> (d: (usize, usize))
    ensures
        d.0 == (if files < 3 { 3 } else if files > 10 { 10 } else { files }),
        d.1 == (if ranks < 3 { 3 } else if ranks > 8 { 8 } else { ranks }),
{
    let c: usize = if files < 3 { 3 } else if files > 10 { 10 } else { files as usize };
    let r: usize = if ranks < 3 { 3 } else if ranks > 8 { 8 } else { ranks as usize };
    (c, r)
}

impl PawnDuel {
    /// One rank of pawns on each edge: seat 1 on the top row, seat 0 on the bottom.
    pub fn new(cols: usize, rows: usize, double_step: bool, en_passant: bool) -> (g: Self)
        requires
            1 <= cols <= 256,
            1 <= rows <= 256,
        ensures
            g.wf(),
            g.cols == cols,
            g.rows == rows,
            g.current == 0,
            g.ep_target is None,
            g.double_step == double_step,
            g.en_passant == en_passant,
            forall|i: int| 0 <= i < cols * rows ==> #[trigger] g.board@[i] == (if i / (cols as int) == 0 {
                1i8
            } else if i / (cols as int) == rows - 1 {
                0i8
            } else {
                -1i8
            }),
    {
        proof {
            crate::reversi::lemma_dims(cols as int, rows as int);
            assert(cols * rows <= 65536) by (nonlinear_arith)
                requires
                    cols <= 256,
                    rows <= 256,
            ;
        }
        let n = cols * rows;
        let mut board: Vec<i8> = Vec::new();
        let mut i: usize = 0;
        while i < n
            invariant
                n == cols * rows,
                1 <= cols <= 256,
                1 <= rows <= 256,
                i <= n,
                board@.len() == i,
                forall|j: int| 0 <= j < i ==> #[trigger] board@[j] == (if j / (cols as int) == 0 {
                    1i8
                } else if j / (cols as int) == rows - 1 {
                    0i8
                } else {
                    -1i8
                }),
            decreases n - i,
        {
            let r = i / cols;
            board.push(if r == 0 { 1 } else if r == rows - 1 { 0 } else { -1 });
            i += 1;
        }
        PawnDuel { board, cols, rows, current: 0, ep_target: None, double_step, en_passant }
    }

    pub fn count(&self, p: i8) -> (n: usize)
        requires
            self.wf(),
        ensures
            n == self.count_spec(p),
    {
        let mut n: usize = 0;
        let mut i: usize = 0;
        while i < self.board.len()
            invariant
                self.wf(),
                i <= self.board@.len(),
                n == count_upto(self.board@, p, i as int),
                n <= i,
            decreases self.board@.len() - i,
        {
            if self.board[i] == p {
                n += 1;
            }
            i += 1;
        }
        n
    }

    fn diag_gen(&self, i: usize, nr: usize, c: usize, right: bool, v: &mut Vec<PdMove>)
        requires
            self.wf(),
            i < self.board@.len(),
            nr < self.rows,
            c < self.cols,
        ensures
            final(v)@ == old(v)@ + self.diag(i as int, nr as int, if right { c + 1 } else { c - 1 }),
    {
        let cols = self.cols;
        if !right && c == 0 {
            return;
        }
        if right && c + 1 >= cols {
            return;
        }
        let nc = if right { c + 1 } else { c - 1 };
        proof {
            crate::gridlib::lemma_cell_index(self.rows as int, cols as int, nr as int, nc as int);
            crate::reversi::lemma_dims(cols as int, self.rows as int);
        }
        let tgt = nr * cols + nc;
        let occ = self.board[tgt];
        if occ == 1 - self.current as i8 {
            v.push(PdMove { from: i as u16, to: tgt as u16 });
        } else if self.en_passant && occ == -1 && self.ep_target == Some(tgt as u16) {
            v.push(PdMove { from: i as u16, to: tgt as u16 });
        }
    }

    #[verifier::rlimit(100)]
    #[verifier::spinoff_prover]
    fn cell_gen(&self, i: usize, v: &mut Vec<PdMove>)
        requires
            self.wf(),
            i < self.board@.len(),
        ensures
            final(v)@ == old(v)@ + self.cell_moves(i as int),
    {
        proof {
            lemma_cell_arith(self.cols as int, self.rows as int, i as int);
            crate::reversi::lemma_dims(self.cols as int, self.rows as int);
        }
        let cols = self.cols;
        let r = i / cols;
        let c = i % cols;
        let me = self.current as i8;
        if self.board[i] != me {
            return;
        }
        let nr: usize = if self.current == 0 {
            if r == 0 {
                return;
            }
            r - 1
        } else {
            if r + 1 >= self.rows {
                return;
            }
            r + 1
        };
        proof {
            crate::gridlib::lemma_cell_index(self.rows as int, cols as int, nr as int, c as int);
        }
        let ghost v0 = v@;
        let base = nr * cols + c;
        if self.board[base] == -1 {
            v.push(PdMove { from: i as u16, to: base as u16 });
            let start = if self.current == 0 { self.rows - 1 } else { 0 };
            if self.double_step && r == start {
                let nr2: Option<usize> = if self.current == 0 {
                    if r >= 2 { Some(r - 2) } else { None }
                } else {
                    if r + 2 < self.rows { Some(r + 2) } else { None }
                };
                match nr2 {
                    Some(x) => {
                        proof {
                            crate::gridlib::lemma_cell_index(self.rows as int, cols as int, x as int, c as int);
                        }
                        if self.board[x * cols + c] == -1 {
                            v.push(PdMove { from: i as u16, to: (x * cols + c) as u16 });
                        }
                    },
                    None => {},
                }
            }
        }
        let ghost v1 = v@;
        self.diag_gen(i, nr, c, false, v);
        self.diag_gen(i, nr, c, true, v);
        proof {
            assert(v@ =~= v0 + self.cell_moves(i as int));
        }
    }

    /// The pawn moves of the side to move, cell by cell in reading order.
    pub fn gen(&self) -> (v: Vec<PdMove>)
        requires
            self.wf(),
        ensures
            v@ == self.gen_spec(),
    {
        let mut v: Vec<PdMove> = Vec::new();
        let mut i: usize = 0;
        while i < self.board.len()
            invariant
                self.wf(),
                i <= self.board@.len(),
                v@ == self.gen_upto(i as int),
            decreases self.board@.len() - i,
        {
            self.cell_gen(i, &mut v);
            i += 1;
        }
        v
    }

    /// The first column of row `row` that holds `p`.
    fn find_in_row(&self, row: usize, p: i8) -> (r: Option<usize>)
        requires
            self.wf(),
            row < self.rows,
        ensures
            r matches Some(c) ==> c < self.cols && self.row_cell(row as int, c as int) == p && forall|k: int|
                0 <= k < c ==> #[trigger] self.row_cell(row as int, k) != p,
            r is None ==> forall|k: int| 0 <= k < self.cols ==> #[trigger] self.row_cell(row as int, k) != p,
            r is Some <==> self.in_row(row as int, p),
    {
        let mut c: usize = 0;
        while c < self.cols
            invariant
                self.wf(),
                row < self.rows,
                c <= self.cols,
                forall|k: int| 0 <= k < c ==> #[trigger] self.row_cell(row as int, k) != p,
            decreases self.cols - c,
        {
            proof {
                crate::gridlib::lemma_cell_index(self.rows as int, self.cols as int, row as int, c as int);
            }
            if self.board[row * self.cols + c] == p {
                assert(self.row_cell(row as int, c as int) == p);
                return Some(c);
            }
            c += 1;
        }
        None
    }

    pub fn term(&self) -> (t: Option<Outcome>)
        requires
            self.wf(),
        ensures
            t == self.term_spec(),
    {
        let p0_home = self.find_in_row(0, 0).is_some();
        let p1_home = self.find_in_row(self.rows - 1, 1).is_some();
        proof {
            lemma_count_zero(self.board@, 0, self.board@.len() as int);
            lemma_count_zero(self.board@, 1, self.board@.len() as int);
        }
        if p0_home || self.count(1) == 0 {
            return Some(if self.current == 0 { Outcome::Win } else { Outcome::Loss });
        }
        if p1_home || self.count(0) == 0 {
            return Some(if self.current == 1 { Outcome::Win } else { Outcome::Loss });
        }
        if self.gen().len() == 0 {
            return Some(Outcome::Loss);
        }
        None
    }

    /// The breakthrough cell once the game is over: the first X pawn on the top row,
    /// else the first O pawn on the bottom row; `None` mid-game or after a win by
    /// elimination or by a stuck opponent.
    pub fn winning_cell(&self) -> (w: Option<usize>)
        requires
            self.wf(),
        ensures
            self.term_spec() is None ==> w is None,
            self.term_spec() is Some ==> (w matches Some(i) ==> i < self.board@.len() && (
                (i < self.cols && self.board@[i as int] == 0 && forall|k: int| 0 <= k < i ==> #[trigger] self.board@[k] != 0)
                || (self.board@[i as int] == 1 && i >= (self.rows - 1) * self.cols && !self.home(0) && forall|k: int|
                    (self.rows - 1) * self.cols <= k < i ==> #[trigger] self.board@[k] != 1))),
            self.term_spec() is Some ==> (w is None <==> !self.home(0) && !self.home(1)),
    {
        if self.term().is_none() {
            return None;
        }
        proof {
            crate::gridlib::lemma_cell_index(self.rows as int, self.cols as int, self.rows - 1, 0);
            crate::reversi::lemma_dims(self.cols as int, self.rows as int);
        }
        match self.find_in_row(0, 0) {
            Some(c) => {
                proof {
                    assert(self.row_cell(0, c as int) == self.board@[c as int]);
                    assert forall|k: int| 0 <= k < c implies #[trigger] self.board@[k] != 0 by {
                        assert(self.row_cell(0, k) != 0);
                    }
                    crate::gridlib::lemma_cell_index(self.rows as int, self.cols as int, 0, c as int);
                }
                return Some(c);
            },
            None => {},
        }

        match self.find_in_row(self.rows - 1, 1) {
            Some(c) => {
                proof {
                    crate::gridlib::lemma_cell_index(self.rows as int, self.cols as int, self.rows - 1, c as int);
                    crate::reversi::lemma_dims(self.cols as int, self.rows as int);
                    let base = (self.rows - 1) * self.cols;
                    assert forall|k: int| base <= k < base + c implies #[trigger] self.board@[k] != 1 by {
                        assert(self.row_cell(self.rows - 1, k - base) != 1);
                    }
                }
                Some((self.rows - 1) * self.cols + c)
            },
            None => None,
        }
    }

    /// Static value for X: each X pawn scores 10 plus its progress up the board, each
    /// O pawn likewise for O.
    pub open spec fn eval_upto(&self, n: int) -> int
        decreases n,
    {
        if n <= 0 {
            0
        } else {
            let r = (n - 1) / (self.cols as int);
            let v = self.board@[n - 1];
            self.eval_upto(n - 1) + if v == 0 {
                10 + (self.rows - 1 - r)
            } else if v == 1 {
                -(10 + r)
            } else {
                0
            }
        }
    }

    pub fn eval0(&self) -> (e: i64)
        requires
            self.wf(),
        ensures
            e == self.eval_upto(self.board@.len() as int),
            -2048 * self.board@.len() <= e <= 2048 * self.board@.len(),
    {
        let mut s: i64 = 0;
        let mut i: usize = 0;
        while i < self.board.len()
            invariant
                self.wf(),
                i <= self.board@.len(),
                s == self.eval_upto(i as int),
                -2048 * i <= s <= 2048 * i,
            decreases self.board@.len() - i,
        {
            proof {
                lemma_cell_arith(self.cols as int, self.rows as int, i as int);
            }
            let r = (i / self.cols) as i64;
            let v = self.board[i];
            if v == 0 {
                s = s + 10 + (self.rows as i64 - 1 - r);
            } else if v == 1 {
                s = s - (10 + r);
            }
            i += 1;
        }
        s
    }

    pub fn eval_for(&self, p: u8) -> (e: i64)
        requires
            self.wf(),
        ensures
            e == (if p == 0 { self.eval_upto(self.board@.len() as int) } else { -self.eval_upto(self.board@.len() as int) }),
    {
        let e = self.eval0();
        if p == 0 { e } else { -e }
    }

    pub fn current_player(&self) -> (p: u8)
        ensures
            p == self.current,
    {
        self.current
    }

    pub fn available_moves(&self) -> (v: Vec<PdMove>)
        requires
            self.wf(),
        ensures
            v@ == self.moves_spec(),
    {
        if self.term().is_some() {
            return Vec::new();
        }
        self.gen()
    }

    /// The board after move `m`: the pawn moves, and an en-passant capture also
    /// removes the passed pawn beside its starting square.
    pub open spec fn moved_board(&self, m: PdMove) -> Seq<i8> {
        let cols = self.cols as int;
        let (fr, fc, tc) = (m.from as int / cols, m.from as int % cols, m.to as int % cols);
        let is_ep = self.en_passant && self.ep_target == Some(m.to) && self.board@[m.to as int] == -1 && fc != tc;
        let b = self.board@.update(m.to as int, self.current as i8).update(m.from as int, -1i8);
        if is_ep {
            b.update(fr * cols + tc, -1i8)
        } else {
            b
        }
    }

    /// The en-passant square after move `m`: the square crossed by a double step.
    pub open spec fn next_ep(&self, m: PdMove) -> Option<u16> {
        let cols = self.cols as int;
        let (fr, fc, tr, tc) = (m.from as int / cols, m.from as int % cols, m.to as int / cols, m.to as int % cols);
        if fc == tc && (tr - fr == 2 || fr - tr == 2) {
            Some((((fr + tr) / 2) * cols + fc) as u16)
        } else {
            None
        }
    }

    /// Move the pawn (capturing whatever stood on the target, or the passed pawn en
    /// passant), re-arm or clear the en-passant square, and pass the turn.
    pub fn make_move(&mut self, m: &PdMove)
        requires
            old(self).wf(),
            (m.from as int) < old(self).board@.len(),
            (m.to as int) < old(self).board@.len(),
        ensures
            final(self).wf(),
            final(self).cols == old(self).cols,
            final(self).rows == old(self).rows,
            final(self).double_step == old(self).double_step,
            final(self).en_passant == old(self).en_passant,
            final(self).board@ == old(self).moved_board(*m),
            final(self).ep_target == old(self).next_ep(*m),
            final(self).current == 1 - old(self).current,
    {
        let cols = self.cols;
        let from = m.from as usize;
        let to = m.to as usize;
        proof {
            lemma_cell_arith(cols as int, self.rows as int, from as int);
            lemma_cell_arith(cols as int, self.rows as int, to as int);
            crate::reversi::lemma_dims(cols as int, self.rows as int);
        }
        let fr = from / cols;
        let fc = from % cols;
        let tr = to / cols;
        let tc = to % cols;
        let is_ep = self.en_passant && self.ep_target == Some(m.to) && self.board[to] == -1 && fc != tc;
        let new_ep = if fc == tc && (tr == fr + 2 || fr == tr + 2) {
            proof {
                crate::gridlib::lemma_cell_index(self.rows as int, cols as int, ((fr + tr) / 2) as int, fc as int);
            }
            Some((((fr + tr) / 2) * cols + fc) as u16)
        } else {
            None
        };
        self.board.set(to, self.current as i8);
        self.board.set(from, -1);
        if is_ep {
            proof {
                crate::gridlib::lemma_cell_index(self.rows as int, cols as int, fr as int, tc as int);
            }
            self.board.set(fr * cols + tc, -1);
        }
        self.ep_target = new_ep;
        self.current = 1 - self.current;
    }

    proof fn lemma_cell_moves_on_board(&self, i: int)
        requires
            self.wf(),
            0 <= i < self.board@.len(),
        ensures
            forall|k: int| 0 <= k < self.cell_moves(i).len() ==> (#[trigger] self.cell_moves(i)[k]).from as int
                == i && (self.cell_moves(i)[k].to as int) < self.board@.len(),
    {
        lemma_cell_arith(self.cols as int, self.rows as int, i);
        crate::reversi::lemma_dims(self.cols as int, self.rows as int);
        let (cols, rows, b) = (self.cols as int, self.rows as int, self.board@);
        let (r, c) = (i / cols, i % cols);
        let nr = if self.current == 0 { r - 1 } else { r + 1 };
        let nr2 = if self.current == 0 { r - 2 } else { r + 2 };
        let start = if self.current == 0 { rows - 1 } else { 0 };
        let from = i as u16;
        let cm = self.cell_moves(i);
        if b[i] == self.current as i8 && 0 <= nr < rows {
            crate::gridlib::lemma_cell_index(rows, cols, nr, c);
            if 0 <= nr2 < rows {
                crate::gridlib::lemma_cell_index(rows, cols, nr2, c);
            }
            if c >= 1 {
                crate::gridlib::lemma_cell_index(rows, cols, nr, c - 1);
            }
            if c + 1 < cols {
                crate::gridlib::lemma_cell_index(rows, cols, nr, c + 1);
            }
            let s1 = if b[nr * cols + c] == -1 {
                seq![PdMove { from, to: (nr * cols + c) as u16 }] + if self.double_step && r == start && 0 <= nr2 < rows
                    && b[nr2 * cols + c] == -1 {
                    seq![PdMove { from, to: (nr2 * cols + c) as u16 }]
                } else {
                    seq![]
                }
            } else {
                seq![]
            };
            let (s2, s3) = (self.diag(i, nr, c - 1), self.diag(i, nr, c + 1));
            assert(cm == s1 + s2 + s3);
            assert forall|k: int| 0 <= k < cm.len() implies (#[trigger] cm[k]).from as int == i && (cm[k].to as int) < b.len() by {
                if k < s1.len() {
                    assert(cm[k] == s1[k]);
                } else if k < s1.len() + s2.len() {
                    assert(cm[k] == s2[k - s1.len()]);
                } else {
                    assert(cm[k] == s3[k - s1.len() - s2.len()]);
                }
            }
        }
    }

    proof fn lemma_gen_on_board(&self, n: int, m: PdMove)
        requires
            self.wf(),
            0 <= n <= self.board@.len(),
            self.gen_upto(n).contains(m),
        ensures
            (m.from as int) < self.board@.len(),
            (m.to as int) < self.board@.len(),
        decreases n,
    {
        if n > 0 {
            if self.gen_upto(n - 1).contains(m) {
                self.lemma_gen_on_board(n - 1, m);
            } else {
                let i = n - 1;
                self.lemma_cell_moves_on_board(i);
                let k = choose|k: int| 0 <= k < self.gen_upto(n).len() && self.gen_upto(n)[k] == m;
                let a = self.gen_upto(n - 1);
                assert(k >= a.len());
                assert(self.cell_moves(i)[k - a.len()] == m);
            }
        }
    }
}

/// Text of a move: `from-to`.
pub open spec fn move_text(m: PdMove) -> Seq<char> {
    join_nums(seq![m.from as int, m.to as int], '-')
}

pub open spec fn moves_text(ms: Seq<PdMove>) -> Seq<char>
    decreases ms.len(),
{
    if ms.len() == 0 {
        seq![]
    } else if ms.len() == 1 {
        move_text(ms[0])
    } else {
        moves_text(ms.drop_last()) + seq![','] + move_text(ms.last())
    }
}

/// The move that `cs` names: two numbers split at the `-`, each read as a `u16`.
pub open spec fn parse_move_spec(cs: Seq<char>) -> Option<PdMove> {
    match parse_list(cs, '-', 65535) {
        Some(v) => if v.len() == 2 {
            Some(PdMove { from: v[0] as u16, to: v[1] as u16 })
        } else {
            None
        },
        None => None,
    }
}

impl PdMove {
    pub fn encode(&self) -> (s: String)
        ensures
            s@ == move_text(*self),
    {
        let v: Vec<u16> = vec![self.from, self.to];
        let mut s = String::new();
        push_joined(&mut s, &v, '-');
        assert(u16s(v@) =~= seq![self.from as int, self.to as int]);
        s
    }
}

pub fn parse_pd_move(mov: &str) -> (r: Option<PdMove>)
    ensures
        r == parse_move_spec(mov@),
{
    let cs = chars_of(mov);
    match parse_u16_list(&cs, '-') {
        Some(p) => if p.len() == 2 {
            assert(u16s(p@)[0] == p@[0] as int && u16s(p@)[1] == p@[1] as int);
            Some(PdMove { from: p[0], to: p[1] })
        } else {
            None
        },
        None => None,
    }
}

/// The text of a move reads back as that move.
pub proof fn lemma_move_text_round_trip(m: PdMove)
    ensures
        parse_move_spec(move_text(m)) == Some(m),
{
    lemma_parse_list_join(seq![m.from as int, m.to as int], '-', 65535);
}

/// Cell character: `X` first player, `O` second player, ` ` empty.
pub open spec fn cell_char(v: i8) -> char {
    if v == 0 {
        'X'
    } else if v == 1 {
        'O'
    } else {
        ' '
    }
}

impl PawnDuel {
    pub fn board_string(&self) -> (s: String)
        ensures
            s@ == Seq::new(self.board@.len(), |i: int| cell_char(self.board@[i])),
    {
        let mut s = String::new();
        let mut i: usize = 0;
        while i < self.board.len()
            invariant
                i <= self.board@.len(),
                s@ == Seq::new(i as nat, |j: int| cell_char(self.board@[j])),
            decreases self.board@.len() - i,
        {
            let v = self.board[i];
            push_char(&mut s, if v == 0 { 'X' } else if v == 1 { 'O' } else { ' ' });
            assert(s@ =~= Seq::new((i + 1) as nat, |j: int| cell_char(self.board@[j])));
            i += 1;
        }
        s
    }

    /// The winner counted from 1, or empty while the game runs.
    pub open spec fn result_text(&self) -> Seq<char> {
        match self.term_spec() {
            Some(Outcome::Win) => dec((self.current + 1) as nat),
            Some(Outcome::Loss) => dec((1 - self.current + 1) as nat),
            _ => seq![],
        }
    }

    pub fn result_string(&self) -> (s: String)
        requires
            self.wf(),
        ensures
            s@ == self.result_text(),
    {
        let mut s = String::new();
        match self.term() {
            Some(Outcome::Win) => push_dec(&mut s, self.current as u64 + 1),
            Some(Outcome::Loss) => push_dec(&mut s, (1 - self.current) as u64 + 1),
            _ => {},
        }
        s
    }

    pub fn legal_moves_string(&self) -> (s: String)
        requires
            self.wf(),
        ensures
            s@ == moves_text(self.moves_spec()),
    {
        let moves = self.available_moves();
        let mut s = String::new();
        let mut i: usize = 0;
        while i < moves.len()
            invariant
                i <= moves@.len(),
                s@ == moves_text(moves@.take(i as int)),
            decreases moves@.len() - i,
        {
            if i > 0 {
                push_char(&mut s, ',');
            }
            let t = moves[i].encode();
            push_str(&mut s, t.as_str());
            proof {
                assert(moves@.take(i + 1).drop_last() =~= moves@.take(i as int));
            }
            i += 1;
        }
        assert(moves@.take(moves@.len() as int) =~= moves@);
        s
    }

    /// Play the move that `mov` names if it is legal; false, leaving the game
    /// unchanged, otherwise.
    pub fn apply_text(&mut self, mov: &str) -> (ok: bool)
        requires
            old(self).wf(),
        ensures
            final(self).wf(),
            ok == (parse_move_spec(mov@) matches Some(m) && old(self).moves_spec().contains(m)),
            !ok ==> *final(self) == *old(self),
            ok ==> final(self).board@ == old(self).moved_board(parse_move_spec(mov@)->0)
                && final(self).ep_target == old(self).next_ep(parse_move_spec(mov@)->0)
                && final(self).current == 1 - old(self).current,
            ok ==> final(self).cols == old(self).cols && final(self).rows == old(self).rows,
            ok ==> final(self).double_step == old(self).double_step && final(self).en_passant == old(self).en_passant,
    {
        let m = match parse_pd_move(mov) {
            Some(m) => m,
            None => {
                return false;
            },
        };
        let moves = self.available_moves();
        let mut found = false;
        let mut i: usize = 0;
        while i < moves.len()
            invariant
                i <= moves@.len(),
                found == exists|j: int| 0 <= j < i && moves@[j] == m,
            decreases moves@.len() - i,
        {
            if moves[i] == m {
                found = true;
            }
            i += 1;
        }
        if !found {
            return false;
        }
        proof {
            self.lemma_gen_on_board(self.board@.len() as int, m);
        }
        self.make_move(&m);
        true
    }
}

/// PawnDuel has no draws: a finished game is a win or a loss for the side to move.
pub proof fn lemma_no_draws(g: PawnDuel)
    ensures
        g.term_spec() != Some(Outcome::Draw),
{
}


impl PawnDuel {
    proof fn lemma_gen_upto_has(&self, n: int, i: int, m: PdMove)
        requires
            0 <= i < n,
            self.cell_moves(i).contains(m),
        ensures
            self.gen_upto(n).contains(m),
        decreases n,
    {
        let prev = self.gen_upto(n - 1);
        let last = self.cell_moves(n - 1);
        if i < n - 1 {
            self.lemma_gen_upto_has(n - 1, i, m);
            let x = choose|x: int| 0 <= x < prev.len() && prev[x] == m;
            assert((prev + last)[x] == m);
        } else {
            let x = choose|x: int| 0 <= x < last.len() && last[x] == m;
            assert((prev + last)[prev.len() + x] == m);
        }
    }

    /// Pawn moves are complete: a pawn of the side to move steps one row forward onto
    /// an empty square, two rows from its starting row when double steps are on and both
    /// squares are empty, and diagonally forward (one column left or right) onto an enemy
    /// pawn; each such move is generated.
    pub proof fn lemma_every_pawn_move_generated(&self, r: int, c: int, dr2: bool, dc: int)
        requires
            self.wf(),
            0 <= r < self.rows,
            0 <= c < self.cols,
            self.board@[r * self.cols + c] == self.current as i8,
            0 <= r + (if self.current == 0 { -1int } else { 1int }) < self.rows,
            dr2 ==> dc == 0 && self.double_step && r == (if self.current == 0 { self.rows - 1 } else { 0 }) && 0 <= r + (if self.current
                == 0 { -2int } else { 2int }) < self.rows && self.board@[(r + (if self.current == 0 { -1int } else { 1int })) * self.cols + c]
                == -1,
            -1 <= dc <= 1,
            0 <= c + dc < self.cols,
            ({
                let nr = r + if dr2 {
                    if self.current == 0 { -2int } else { 2int }
                } else {
                    if self.current == 0 { -1int } else { 1int }
                };
                let t = self.board@[nr * self.cols + (c + dc)];
                if dc == 0 {
                    t == -1
                } else {
                    t == 1 - self.current
                }
            }),
        ensures
            ({
                let nr = r + if dr2 {
                    if self.current == 0 { -2int } else { 2int }
                } else {
                    if self.current == 0 { -1int } else { 1int }
                };
                self.gen_spec().contains(PdMove { from: (r * self.cols + c) as u16, to: (nr * self.cols + (c + dc)) as u16 })
            }),
    {
        let (cols, rows) = (self.cols as int, self.rows as int);
        let i = r * cols + c;
        crate::gridlib::lemma_cell_index(rows, cols, r, c);
        vstd::arithmetic::div_mod::lemma_fundamental_div_mod_converse(i, cols, r, c);
        let nr1 = if self.current == 0 { r - 1 } else { r + 1 };
        let nr2 = if self.current == 0 { r - 2 } else { r + 2 };
        let start = if self.current == 0 { rows - 1 } else { 0 };
        let me = self.current as i8;
        let from = i as u16;
        let fwd = if self.board@[nr1 * cols + c] == -1 {
            seq![PdMove { from, to: (nr1 * cols + c) as u16 }] + if self.double_step && r == start && 0 <= nr2 < rows && self.board@[nr2 * cols
                + c] == -1 {
                seq![PdMove { from, to: (nr2 * cols + c) as u16 }]
            } else {
                seq![]
            }
        } else {
            seq![]
        };
        let dl = self.diag(i, nr1, c - 1);
        let drt = self.diag(i, nr1, c + 1);
        assert(self.cell_moves(i) == fwd + dl + drt);
        let nr = if dr2 { nr2 } else { nr1 };
        let m = PdMove { from, to: (nr * cols + (c + dc)) as u16 };
        if dr2 {
            assert(fwd[1] == m);
            assert((fwd + dl + drt)[1] == m);
        } else if dc == 0 {
            assert((fwd + dl + drt)[0] == m);
        } else if dc == -1 {
            assert(nr * cols + (c + dc) == nr1 * cols + (c - 1));
            assert(dl[0] == m);
            assert((fwd + dl + drt)[fwd.len() as int] == m);
        } else {
            assert(nr * cols + (c + dc) == nr1 * cols + (c + 1));
            assert(drt[0] == m);
            assert((fwd + dl + drt)[(fwd.len() + dl.len()) as int] == m);
        }
        self.lemma_gen_upto_has(self.board@.len() as int, i, m);
    }
}

} // verus!
