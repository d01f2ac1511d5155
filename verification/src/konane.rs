//! Kōnane, the Hawaiian jump-capture game: from a full checkerboard with two
//! adjacent central stones removed, the mover jumps a stone orthogonally over an
//! adjacent enemy stone into the empty cell beyond, capturing it. A player who
//! cannot jump loses.
use vstd::prelude::*;
use crate::capturego::lemma_cell_arith;
use crate::gridlib::lemma_cell_index;
use crate::reversi::lemma_dims;
use crate::outcome::Outcome;
use crate::text::{push_char, push_str, push_dec, push_joined, join_nums, u16s, dec, chars_of, parse_u16_list, parse_list, lemma_parse_list_join};

verus! {

#[derive(Clone, Copy, Debug, PartialEq, Eq, Structural)]
pub struct KMove {
    pub from: u16,
    pub to: u16,
}

#[derive(Clone, Debug)]
pub struct Konane {
    pub cols: usize,
    pub rows: usize,
    /// -1 empty, else the owner (0 or 1).
    pub grid: Vec<i8>,
    pub current: u8,
}

/// Row step of the `d`-th jump direction: up, down, left, right.
pub open spec fn kdr(d: int) -> int {
    if d == 0 { -1 } else if d == 1 { 1 } else { 0 }
}

/// Column step of the `d`-th jump direction: up, down, left, right.
pub open spec fn kdc(d: int) -> int {
    if d == 2 { -1 } else if d == 3 { 1 } else { 0 }
}

impl Konane {
    pub open spec fn wf(&self) -> bool {
        &&& 1 <= self.cols <= 1024
        &&& 1 <= self.rows <= 1024
        &&& self.grid@.len() == self.cols * self.rows
        &&& self.grid@.len() <= 65536
        &&& self.current <= 1
    }

    /// The jump from cell `i` in direction `d`, if the side to move may make it.
    pub open spec fn jump(&self, i: int, d: int) -> Seq<KMove> {
        let (cols, rows, g) = (self.cols as int, self.rows as int, self.grid@);
        let (r, c) = (i / cols, i % cols);
        let (mr, mc, lr, lc) = (r + kdr(d), c + kdc(d), r + 2 * kdr(d), c + 2 * kdc(d));
        let me = self.current as i8;
        if 0 <= lr < rows && 0 <= lc < cols && g[mr * cols + mc] == 1 - me && g[lr * cols + lc] == -1 {
            seq![KMove { from: i as u16, to: (lr * cols + lc) as u16 }]
        } else {
            seq![]
        }
    }

    /// The jumps of the stone of the side to move on cell `i`: up, down, left, right.
    pub open spec fn cell_moves(&self, i: int) -> Seq<KMove> {
        if self.grid@[i] != self.current as i8 {
            seq![]
        } else {
            self.jump(i, 0) + self.jump(i, 1) + self.jump(i, 2) + self.jump(i, 3)
        }
    }

    pub open spec fn gen_upto(&self, n: int) -> Seq<KMove>
        decreases n,
    {
        if n <= 0 {
            seq![]
        } else {
            self.gen_upto(n - 1) + self.cell_moves(n - 1)
        }
    }

    pub open spec fn gen_spec(&self) -> Seq<KMove> {
        self.gen_upto(self.grid@.len() as int)
    }

    pub open spec fn term_spec(&self) -> Option<Outcome> {
        if self.gen_spec().len() == 0 {
            Some(Outcome::Loss)
        } else {
            None
        }
    }

    /// The opening: cell `(r, c)` holds player `(r + c) % 2`, except the central cell
    /// and its left neighbour, which are empty.
    pub open spec fn opening(cols: int, rows: int, i: int) -> i8 {
        let a = (rows / 2) * cols + cols / 2;
        if i == a || i == a - 1 {
            -1i8
        } else {
            ((i / cols + i % cols) % 2) as i8
        }
    }

    pub fn new(cols: usize, rows: usize) -> (g: Self)
        requires
            2 <= cols <= 256,
            1 <= rows <= 256,
        ensures
            g.wf(),
            g.cols == cols,
            g.rows == rows,
            g.current == 0,
            forall|i: int| 0 <= i < cols * rows ==> #[trigger] g.grid@[i] == Self::opening(cols as int, rows as int, i),
    {
        proof {
            lemma_dims(cols as int, rows as int);
            assert(cols * rows <= 65536) by (nonlinear_arith)
                requires
                    cols <= 256,
                    rows <= 256,
            ;
        }
        let n = cols * rows;
        let mut grid: Vec<i8> = Vec::new();
        let mut i: usize = 0;
        while i < n
            invariant
                n == cols * rows,
                n <= 65536,
                2 <= cols <= 256,
                i <= n,
                grid@.len() == i,
                forall|j: int| 0 <= j < i ==> #[trigger] grid@[j] == ((j / cols as int + j % cols as int) % 2) as i8,
            decreases n - i,
        {
            proof {
                assert(i as int / cols as int <= i) by (nonlinear_arith)
                    requires
                        cols >= 1,
                        i >= 0,
                ;
            }
            grid.push(((i / cols + i % cols) % 2) as i8);
            i += 1;
        }
        let cr = rows / 2;
        let cc = cols / 2;
        proof {
            lemma_cell_index(rows as int, cols as int, cr as int, cc as int);
        }
        if cr < rows {
            let a = cr * cols + cc;
            grid.set(a, -1);
            grid.set(a - 1, -1);
        }
        Konane { cols, rows, grid, current: 0 }
    }

    fn jump_gen(&self, i: usize, d: usize, v: &mut Vec<KMove>)
        requires
            self.wf(),
            i < self.grid@.len(),
            d < 4,
        ensures
            final(v)@ == old(v)@ + self.jump(i as int, d as int),
    {
        proof {
            lemma_cell_arith(self.cols as int, self.rows as int, i as int);
        }
        let cols = self.cols;
        let r = i / cols;
        let c = i % cols;
        let (lr, lc, mr, mc): (usize, usize, usize, usize) = if d == 0 {
            if r < 2 {
                return;
            }
            (r - 2, c, r - 1, c)
        } else if d == 1 {
            if r + 2 >= self.rows {
                return;
            }
            (r + 2, c, r + 1, c)
        } else if d == 2 {
            if c < 2 {
                return;
            }
            (r, c - 2, r, c - 1)
        } else {
            if c + 2 >= cols {
                return;
            }
            (r, c + 2, r, c + 1)
        };
        proof {
            lemma_cell_index(self.rows as int, cols as int, lr as int, lc as int);
            lemma_cell_index(self.rows as int, cols as int, mr as int, mc as int);
            lemma_dims(cols as int, self.rows as int);
        }
        let me = self.current as i8;
        let mid = mr * cols + mc;
        let land = lr * cols + lc;
        if self.grid[mid] == 1 - me && self.grid[land] == -1 {
            v.push(KMove { from: i as u16, to: land as u16 });
        }
    }

    /// The jumps of the side to move, cell by cell in reading order.
    pub fn gen(&self) -> (v: Vec<KMove>)
        requires
            self.wf(),
        ensures
            v@ == self.gen_spec(),
    {
        let mut v: Vec<KMove> = Vec::new();
        let mut i: usize = 0;
        while i < self.grid.len()
            invariant
                self.wf(),
                i <= self.grid@.len(),
                v@ == self.gen_upto(i as int),
            decreases self.grid@.len() - i,
        {
            if self.grid[i] == self.current as i8 {
                let ghost v0 = v@;
                self.jump_gen(i, 0, &mut v);
                self.jump_gen(i, 1, &mut v);
                self.jump_gen(i, 2, &mut v);
                self.jump_gen(i, 3, &mut v);
                proof {
                    assert(v@ =~= v0 + self.cell_moves(i as int));
                }
            }
            i += 1;
        }
        v
    }

    pub fn term(&self) -> (t: Option<Outcome>)
        requires
            self.wf(),
        ensures
            t == self.term_spec(),
    {
        if self.gen().len() == 0 {
            Some(Outcome::Loss)
        } else {
            None
        }
    }

    pub fn current_player(&self) -> (p: u8)
        ensures
            p == self.current,
    {
        self.current
    }

    pub fn available_moves(&self) -> (v: Vec<KMove>)
        requires
            self.wf(),
        ensures
            v@ == self.gen_spec(),
    {
        self.gen()
    }

    /// Jump: the stone lands, its cell empties, and the stone halfway between is
    /// captured.
    pub fn make_move(&mut self, m: &KMove)
        requires
            old(self).wf(),
            (m.from as int) < old(self).grid@.len(),
            (m.to as int) < old(self).grid@.len(),
        ensures
            final(self).wf(),
            final(self).cols == old(self).cols,
            final(self).rows == old(self).rows,
            final(self).grid@ == old(self).grid@.update(m.to as int, old(self).current as i8).update(m.from as int, -1i8).update(
                (m.from + m.to) / 2,
                -1i8,
            ),
            final(self).current == 1 - old(self).current,
    {
        let from = m.from as usize;
        let to = m.to as usize;
        let mid = (from + to) / 2;
        self.grid.set(to, self.current as i8);
        self.grid.set(from, -1);
        self.grid.set(mid, -1);
        self.current = 1 - self.current;
    }

    proof fn lemma_jump_shape(&self, i: int, d: int)
        requires
            self.wf(),
            0 <= i < self.grid@.len(),
            0 <= d < 4,
        ensures
            forall|k: int| 0 <= k < self.jump(i, d).len() ==> {
                let m = #[trigger] self.jump(i, d)[k];
                &&& m.from as int == i
                &&& (m.to as int) < self.grid@.len()
                &&& self.grid@[m.to as int] == -1
                &&& self.grid@[(m.from + m.to) / 2] == 1 - self.current
                &&& (m.to as int == i - 2 * self.cols || m.to as int == i + 2 * self.cols || m.to as int == i - 2
                    || m.to as int == i + 2)
            },
    {
        lemma_cell_arith(self.cols as int, self.rows as int, i);
        lemma_dims(self.cols as int, self.rows as int);
        let (cols, rows) = (self.cols as int, self.rows as int);
        let (r, c) = (i / cols, i % cols);
        let (mr, mc, lr, lc) = (r + kdr(d), c + kdc(d), r + 2 * kdr(d), c + 2 * kdc(d));
        if 0 <= lr < rows && 0 <= lc < cols {
            lemma_cell_index(rows, cols, lr, lc);
            assert(0 <= mr < rows && 0 <= mc < cols);
            assert((i + (lr * cols + lc)) / 2 == mr * cols + mc) by {
                if d == 0 {
                    assert(lr * cols + lc == i - 2 * cols) by (nonlinear_arith)
                        requires
                            lr == r - 2,
                            lc == c,
                            i == r * cols + c,
                    ;
                    assert(mr * cols + mc == i - cols) by (nonlinear_arith)
                        requires
                            mr == r - 1,
                            mc == c,
                            i == r * cols + c,
                    ;
                } else if d == 1 {
                    assert(lr * cols + lc == i + 2 * cols) by (nonlinear_arith)
                        requires
                            lr == r + 2,
                            lc == c,
                            i == r * cols + c,
                    ;
                    assert(mr * cols + mc == i + cols) by (nonlinear_arith)
                        requires
                            mr == r + 1,
                            mc == c,
                            i == r * cols + c,
                    ;
                } else {
                    assert(mr * cols == r * cols);
                    assert(lr * cols == r * cols);
                }
            }
            if d == 0 {
                assert(lr * cols + lc == i - 2 * cols) by (nonlinear_arith)
                    requires
                        lr == r - 2,
                        lc == c,
                        i == r * cols + c,
                ;
            } else if d == 1 {
                assert(lr * cols + lc == i + 2 * cols) by (nonlinear_arith)
                    requires
                        lr == r + 2,
                        lc == c,
                        i == r * cols + c,
                ;
            } else {
                assert(lr * cols == r * cols);
            }
        }
    }

    proof fn lemma_gen_shape(&self, n: int)
        requires
            self.wf(),
            0 <= n <= self.grid@.len(),
        ensures
            forall|k: int| 0 <= k < self.gen_upto(n).len() ==> {
                let m = #[trigger] self.gen_upto(n)[k];
                &&& (m.from as int) < self.grid@.len()
                &&& (m.to as int) < self.grid@.len()
                &&& self.grid@[m.from as int] == self.current as i8
                &&& self.grid@[m.to as int] == -1
                &&& self.grid@[(m.from + m.to) / 2] == 1 - self.current
                &&& (m.to == m.from - 2 * self.cols || m.to == m.from + 2 * self.cols || m.to == m.from - 2
                    || m.to == m.from + 2)
            },
        decreases n,
    {
        if n > 0 {
            self.lemma_gen_shape(n - 1);
            let i = n - 1;
            let a = self.gen_upto(n - 1);
            let cm = self.cell_moves(i);
            if self.grid@[i] == self.current as i8 {
                self.lemma_jump_shape(i, 0);
                self.lemma_jump_shape(i, 1);
                self.lemma_jump_shape(i, 2);
                self.lemma_jump_shape(i, 3);
                let (j0, j1, j2, j3) = (self.jump(i, 0), self.jump(i, 1), self.jump(i, 2), self.jump(i, 3));
                assert forall|k: int| 0 <= k < cm.len() implies {
                    let m = #[trigger] cm[k];
                    &&& m.from as int == i
                    &&& (m.to as int) < self.grid@.len()
                    &&& self.grid@[m.to as int] == -1
                    &&& self.grid@[(m.from + m.to) / 2] == 1 - self.current
                    &&& (m.to as int == i - 2 * self.cols || m.to as int == i + 2 * self.cols || m.to as int == i - 2
                        || m.to as int == i + 2)
                } by {
                    assert(cm == j0 + j1 + j2 + j3);
                    if k < j0.len() {
                        assert(cm[k] == j0[k]);
                    } else if k < j0.len() + j1.len() {
                        assert(cm[k] == j1[k - j0.len()]);
                    } else if k < j0.len() + j1.len() + j2.len() {
                        assert(cm[k] == j2[k - j0.len() - j1.len()]);
                    } else {
                        assert(cm[k] == j3[k - j0.len() - j1.len() - j2.len()]);
                    }
                }
            }
            assert forall|k: int| 0 <= k < self.gen_upto(n).len() implies {
                let m = #[trigger] self.gen_upto(n)[k];
                &&& (m.from as int) < self.grid@.len()
                &&& (m.to as int) < self.grid@.len()
                &&& self.grid@[m.from as int] == self.current as i8
                &&& self.grid@[m.to as int] == -1
                &&& self.grid@[(m.from + m.to) / 2] == 1 - self.current
                &&& (m.to == m.from - 2 * self.cols || m.to == m.from + 2 * self.cols || m.to == m.from - 2
                    || m.to == m.from + 2)
            } by {
                if k >= a.len() {
                    assert(self.gen_upto(n)[k] == cm[k - a.len()]);
                } else {
                    assert(self.gen_upto(n)[k] == a[k]);
                }
            }
        }
    }
}

/// Every jump lands two cells away along a row or column, from a stone of the side
/// to move onto an empty cell, over an enemy stone on the cell exactly halfway
/// (the one `make_move` captures).
pub proof fn lemma_jumps_capture_the_middle(g: Konane)
    requires
        g.wf(),
    ensures
        forall|k: int| 0 <= k < g.gen_spec().len() ==> {
            let m = #[trigger] g.gen_spec()[k];
            &&& (m.from as int) < g.grid@.len()
            &&& (m.to as int) < g.grid@.len()
            &&& g.grid@[m.from as int] == g.current as i8
            &&& g.grid@[m.to as int] == -1
            &&& g.grid@[(m.from + m.to) / 2] == 1 - g.current
            &&& (m.to == m.from - 2 * g.cols || m.to == m.from + 2 * g.cols || m.to == m.from - 2 || m.to == m.from + 2)
        },
{
    g.lemma_gen_shape(g.grid@.len() as int);
}

/// Text of a move: `from-to`.
pub open spec fn move_text(m: KMove) -> Seq<char> {
    join_nums(seq![m.from as int, m.to as int], '-')
}

pub open spec fn moves_text(ms: Seq<KMove>) -> Seq<char>
    decreases ms.len(),
{
    if ms.len() == 0 {
        seq![]
    } else if ms.len() == 1 {
        move_text(ms[0])
    } else {
        moves_text(ms.drop_last()) + seq![','] + move_text(ms.last())
    }
}

/// The move that `cs` names: two numbers split at the `-`, each read as a `u16`.
pub open spec fn parse_move_spec(cs: Seq<char>) -> Option<KMove> {
    match parse_list(cs, '-', 65535) {
        Some(v) => if v.len() == 2 {
            Some(KMove { from: v[0] as u16, to: v[1] as u16 })
        } else {
            None
        },
        None => None,
    }
}

impl KMove {
    pub fn encode(&self) -> (s: String)
        ensures
            s@ == move_text(*self),
    {
        let v: Vec<u16> = vec![self.from, self.to];
        let mut s = String::new();
        push_joined(&mut s, &v, '-');
        assert(u16s(v@) =~= seq![self.from as int, self.to as int]);
        s
    }
}

pub fn parse_k_move(mov: &str) -> (r: Option<KMove>)
    ensures
        r == parse_move_spec(mov@),
{
    let cs = chars_of(mov);
    match parse_u16_list(&cs, '-') {
        Some(p) => if p.len() == 2 {
            assert(u16s(p@)[0] == p@[0] as int && u16s(p@)[1] == p@[1] as int);
            Some(KMove { from: p[0], to: p[1] })
        } else {
            None
        },
        None => None,
    }
}

/// The text of a move reads back as that move.
pub proof fn lemma_move_text_round_trip(m: KMove)
    ensures
        parse_move_spec(move_text(m)) == Some(m),
{
    lemma_parse_list_join(seq![m.from as int, m.to as int], '-', 65535);
}

/// Cell character: `X` first player, `O` second player, ` ` empty.
pub open spec fn cell_char(v: i8) -> char {
    if v == 0 {
        'X'
    } else if v == 1 {
        'O'
    } else {
        ' '
    }
}

impl Konane {
    pub fn board_string(&self) -> (s: String)
        ensures
            s@ == Seq::new(self.grid@.len(), |i: int| cell_char(self.grid@[i])),
    {
        let mut s = String::new();
        let mut i: usize = 0;
        while i < self.grid.len()
            invariant
                i <= self.grid@.len(),
                s@ == Seq::new(i as nat, |j: int| cell_char(self.grid@[j])),
            decreases self.grid@.len() - i,
        {
            let v = self.grid[i];
            push_char(&mut s, if v == 0 { 'X' } else if v == 1 { 'O' } else { ' ' });
            assert(s@ =~= Seq::new((i + 1) as nat, |j: int| cell_char(self.grid@[j])));
            i += 1;
        }
        s
    }

    /// The winner counted from 1 once the side to move is stuck; empty before.
    pub fn result_string(&self) -> (s: String)
        requires
            self.wf(),
        ensures
            s@ == (if self.term_spec() is Some { dec((1 - self.current + 1) as nat) } else { seq![] }),
    {
        let mut s = String::new();
        if self.term().is_some() {
            push_dec(&mut s, (1 - self.current) as u64 + 1);
        }
        s
    }

    pub fn legal_moves_string(&self) -> (s: String)
        requires
            self.wf(),
        ensures
            s@ == moves_text(self.gen_spec()),
    {
        let moves = self.gen();
        let mut s = String::new();
        let mut i: usize = 0;
        while i < moves.len()
            invariant
                i <= moves@.len(),
                s@ == moves_text(moves@.take(i as int)),
            decreases moves@.len() - i,
        {
            if i > 0 {
                push_char(&mut s, ',');
            }
            let t = moves[i].encode();
            push_str(&mut s, t.as_str());
            proof {
                assert(moves@.take(i + 1).drop_last() =~= moves@.take(i as int));
            }
            i += 1;
        }
        assert(moves@.take(moves@.len() as int) =~= moves@);
        s
    }

    /// Play the jump that `mov` names if it is legal; false, leaving the game
    /// unchanged, otherwise.
    pub fn apply_text(&mut self, mov: &str) -> (ok: bool)
        requires
            old(self).wf(),
        ensures
            final(self).wf(),
            ok == (parse_move_spec(mov@) matches Some(m) && old(self).gen_spec().contains(m)),
            !ok ==> *final(self) == *old(self),
            ok ==> ({
                let m = parse_move_spec(mov@)->0;
                final(self).grid@ == old(self).grid@.update(m.to as int, old(self).current as i8).update(m.from as int, -1i8).update(
                    (m.from + m.to) / 2,
                    -1i8,
                )
            }),
            ok ==> final(self).current == 1 - old(self).current,
            ok ==> final(self).cols == old(self).cols && final(self).rows == old(self).rows,
    {
        let m = match parse_k_move(mov) {
            Some(m) => m,
            None => {
                return false;
            },
        };
        let moves = self.gen();
        let mut found = false;
        let mut i: usize = 0;
        while i < moves.len()
            invariant
                i <= moves@.len(),
                found == exists|j: int| 0 <= j < i && moves@[j] == m,
            decreases moves@.len() - i,
        {
            if moves[i] == m {
                found = true;
            }
            i += 1;
        }
        if !found {
            return false;
        }
        proof {
            lemma_jumps_capture_the_middle(*self);
            let j = choose|j: int| 0 <= j < moves@.len() && moves@[j] == m;
            assert(self.gen_spec()[j] == m);
        }
        self.make_move(&m);
        true
    }
}


impl Konane {
    proof fn lemma_gen_upto_has(&self, n: int, i: int, m: KMove)
        requires
            0 <= i < n,
            self.cell_moves(i).contains(m),
        ensures
            self.gen_upto(n).contains(m),
        decreases n,
    {
        let prev = self.gen_upto(n - 1);
        let last = self.cell_moves(n - 1);
        if i < n - 1 {
            self.lemma_gen_upto_has(n - 1, i, m);
            let x = choose|x: int| 0 <= x < prev.len() && prev[x] == m;
            assert((prev + last)[x] == m);
        } else {
            let x = choose|x: int| 0 <= x < last.len() && last[x] == m;
            assert((prev + last)[prev.len() + x] == m);
        }
    }

    /// Jumps are complete: a stone of the side to move may jump an orthogonally adjacent
    /// enemy stone, up, down, left or right, onto the empty cell beyond it; each such
    /// jump is generated.
    pub proof fn lemma_every_jump_generated(&self, r: int, c: int, dr: int, dc: int)
        requires
            self.wf(),
            0 <= r < self.rows,
            0 <= c < self.cols,
            (dr == 0 && (dc == 1 || dc == -1)) || (dc == 0 && (dr == 1 || dr == -1)),
            0 <= r + 2 * dr < self.rows,
            0 <= c + 2 * dc < self.cols,
            self.grid@[r * self.cols + c] == self.current as i8,
            self.grid@[(r + dr) * self.cols + (c + dc)] == 1 - self.current,
            self.grid@[(r + 2 * dr) * self.cols + (c + 2 * dc)] == -1,
        ensures
            self.gen_spec().contains(KMove { from: (r * self.cols + c) as u16, to: ((r + 2 * dr) * self.cols + (c + 2 * dc)) as u16 }),
    {
        let (cols, rows) = (self.cols as int, self.rows as int);
        let i = r * cols + c;
        crate::gridlib::lemma_cell_index(rows, cols, r, c);
        vstd::arithmetic::div_mod::lemma_fundamental_div_mod_converse(i, cols, r, c);
        let d: int = if dr == -1 { 0 } else if dr == 1 { 1 } else if dc == -1 { 2 } else { 3 };
        assert(kdr(d) == dr && kdc(d) == dc);
        let m = KMove { from: i as u16, to: ((r + 2 * dr) * cols + (c + 2 * dc)) as u16 };
        let (j0, j1, j2, j3) = (self.jump(i, 0), self.jump(i, 1), self.jump(i, 2), self.jump(i, 3));
        assert(self.cell_moves(i) == j0 + j1 + j2 + j3);
        assert(self.jump(i, d) == seq![m]);
        if d == 0 {
            assert((j0 + j1 + j2 + j3)[0] == m);
        } else if d == 1 {
            assert((j0 + j1 + j2 + j3)[j0.len() as int] == m);
        } else if d == 2 {
            assert((j0 + j1 + j2 + j3)[(j0.len() + j1.len()) as int] == m);
        } else {
            assert((j0 + j1 + j2 + j3)[(j0.len() + j1.len() + j2.len()) as int] == m);
        }
        self.lemma_gen_upto_has(self.grid@.len() as int, i, m);
    }
}

} // verus!
