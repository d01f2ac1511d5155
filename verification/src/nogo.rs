//! NoGo, the anti-Go: players place stones, but a placement may neither capture an
//! enemy group nor leave its own group without a liberty. A player without a legal
//! placement loses.
use vstd::prelude::*;
use crate::capturego::{CaptureGo, orth_spec, has_liberty, lemma_cell_arith, lemma_orth_in_range};
use crate::outcome::Outcome;
use crate::text::{push_char, push_dec, push_joined, join_nums, u16s, dec, chars_of, parse_uint, parse_uint_range};

verus! {

#[derive(Clone, Debug)]
pub struct NoGo {
    pub cols: usize,
    pub rows: usize,
    /// -1 empty, else the owner (0 or 1).
    pub grid: Vec<i8>,
    pub current: u8,
}

impl NoGo {
    pub open spec fn wf(&self) -> bool {
        &&& self.cols <= 256
        &&& self.rows <= 256
        &&& self.grid@.len() == self.cols * self.rows
        &&& self.grid@.len() <= 65536
        &&& self.current <= 1
        &&& forall|i: int| 0 <= i < self.grid@.len() ==> -1 <= #[trigger] self.grid@[i] <= 1
    }

    /// The board with a stone of the side to move on `i`.
    pub open spec fn placed(&self, i: int) -> Seq<i8> {
        self.grid@.update(i, self.current as i8)
    }

    /// `i` is empty, and after placing there the new stone's group keeps a liberty
    /// and so does every enemy group next to it.
    pub open spec fn legal_spec(&self, i: int) -> bool {
        let (cols, rows) = (self.cols as int, self.rows as int);
        let g = self.placed(i);
        let nbs = orth_spec(cols, rows, i);
        &&& self.grid@[i] == -1
        &&& has_liberty(g, cols, rows, i)
        &&& forall|j: int| 0 <= j < nbs.len() && g[#[trigger] nbs[j]] == 1 - self.current ==> has_liberty(g, cols, rows, nbs[j])
    }

    pub open spec fn moves_upto(&self, n: int) -> Seq<u16>
        decreases n,
    {
        if n <= 0 {
            seq![]
        } else {
            self.moves_upto(n - 1) + if self.legal_spec(n - 1) { seq![(n - 1) as u16] } else { seq![] }
        }
    }

    pub open spec fn moves_spec(&self) -> Seq<u16> {
        self.moves_upto(self.grid@.len() as int)
    }

    pub open spec fn term_spec(&self) -> Option<Outcome> {
        if self.moves_spec().len() == 0 {
            Some(Outcome::Loss)
        } else {
            None
        }
    }

    pub fn new(cols: usize, rows: usize) -> (g: Self)
        requires
            cols <= 256,
            rows <= 256,
        ensures
            g.wf(),
            g.cols == cols,
            g.rows == rows,
            g.current == 0,
            forall|i: int| 0 <= i < cols * rows ==> #[trigger] g.grid@[i] == -1,
    {
        let c = CaptureGo::new(cols, rows);
        NoGo { cols, rows, grid: c.board, current: 0 }
    }

    /// The same board seen by the Go engine, whose group flood fill decides liberties.
    fn engine(&self) -> (c: CaptureGo)
        requires
            self.wf(),
        ensures
            c.wf(),
            c.cols == self.cols,
            c.rows == self.rows,
            c.board@ == self.grid@,
    {
        CaptureGo { board: self.grid.clone(), cols: self.cols, rows: self.rows, current: self.current, last_capture: None }
    }

    pub fn is_legal(&self, i: usize) -> (b: bool)
        requires
            self.wf(),
            i < self.grid@.len(),
        ensures
            b == self.legal_spec(i as int),
    {
        if self.grid[i] != -1 {
            return false;
        }
        let me = self.current as i8;
        let enemy = 1 - me;
        let eng = self.engine();
        let mut g = self.grid.clone();
        g.set(i, me);
        assert(g@ == self.placed(i as int));
        let (_, own) = eng.group(&g, i);
        if !own {
            return false;
        }
        let nbs = eng.orth(i);
        let ghost (ci, ri) = (self.cols as int, self.rows as int);
        let mut k: usize = 0;
        while k < nbs.len()
            invariant
                self.wf(),
                eng.wf(),
                eng.cols == self.cols,
                eng.rows == self.rows,
                eng.board@ == self.grid@,
                ci == self.cols,
                ri == self.rows,
                i < self.grid@.len(),
                g@ == self.placed(i as int),
                enemy == 1 - self.current,
                nbs@.len() == orth_spec(ci, ri, i as int).len(),
                forall|j: int| 0 <= j < nbs@.len() ==> #[trigger] nbs@[j] as int == orth_spec(ci, ri, i as int)[j],
                forall|j: int| 0 <= j < nbs@.len() ==> #[trigger] nbs@[j] < self.grid@.len(),
                k <= nbs@.len(),
                forall|j: int| 0 <= j < k && g@[#[trigger] orth_spec(ci, ri, i as int)[j]] == 1 - self.current
                    ==> has_liberty(g@, ci, ri, orth_spec(ci, ri, i as int)[j]),
            decreases nbs@.len() - k,
        {
            let n = nbs[k];
            if g[n] == enemy {
                let (_, lib) = eng.group(&g, n);
                if !lib {
                    assert(orth_spec(ci, ri, i as int)[k as int] == n as int);
                    return false;
                }
            }
            k += 1;
        }
        true
    }

    /// The placements of the side to move, in order.
    pub fn gen(&self) -> (v: Vec<u16>)
        requires
            self.wf(),
        ensures
            v@ == self.moves_spec(),
    {
        let mut v: Vec<u16> = Vec::new();
        let mut i: usize = 0;
        while i < self.grid.len()
            invariant
                self.wf(),
                i <= self.grid@.len(),
                v@ == self.moves_upto(i as int),
            decreases self.grid@.len() - i,
        {
            if self.is_legal(i) {
                v.push(i as u16);
            }
            i += 1;
        }
        v
    }

    pub fn term(&self) -> (t: Option<Outcome>)
        requires
            self.wf(),
        ensures
            t == self.term_spec(),
    {
        if self.gen().len() == 0 {
            Some(Outcome::Loss)
        } else {
            None
        }
    }

    pub fn current_player(&self) -> (p: u8)
        ensures
            p == self.current,
    {
        self.current
    }

    pub fn available_moves(&self) -> (v: Vec<u16>)
        requires
            self.wf(),
        ensures
            v@ == self.moves_spec(),
    {
        self.gen()
    }

    /// Place a stone of the side to move on `m`; the other side moves next.
    pub fn make_move(&mut self, m: &u16)
        requires
            old(self).wf(),
            (*m as int) < old(self).grid@.len(),
        ensures
            final(self).wf(),
            final(self).cols == old(self).cols,
            final(self).rows == old(self).rows,
            final(self).grid@ == old(self).placed(*m as int),
            final(self).current == 1 - old(self).current,
    {
        self.grid.set(*m as usize, self.current as i8);
        self.current = 1 - self.current;
    }
}

/// Cell character: `X` first player, `O` second player, ` ` empty.
pub open spec fn cell_char(v: i8) -> char {
    if v == 0 {
        'X'
    } else if v == 1 {
        'O'
    } else {
        ' '
    }
}

proof fn lemma_moves_below(g: NoGo, n: int, m: u16)
    requires
        g.moves_upto(n).contains(m),
    ensures
        (m as int) < n,
    decreases n,
{
    if n > 0 {
        let a = g.moves_upto(n - 1);
        if a.contains(m) {
            lemma_moves_below(g, n - 1, m);
        } else {
            let k = choose|k: int| 0 <= k < g.moves_upto(n).len() && g.moves_upto(n)[k] == m;
            assert(k >= a.len());
        }
    }
}

impl NoGo {
    pub fn board_string(&self) -> (s: String)
        ensures
            s@ == Seq::new(self.grid@.len(), |i: int| cell_char(self.grid@[i])),
    {
        let mut s = String::new();
        let mut i: usize = 0;
        while i < self.grid.len()
            invariant
                i <= self.grid@.len(),
                s@ == Seq::new(i as nat, |j: int| cell_char(self.grid@[j])),
            decreases self.grid@.len() - i,
        {
            let v = self.grid[i];
            push_char(&mut s, if v == 0 { 'X' } else if v == 1 { 'O' } else { ' ' });
            assert(s@ =~= Seq::new((i + 1) as nat, |j: int| cell_char(self.grid@[j])));
            i += 1;
        }
        s
    }

    /// The winner counted from 1 once the side to move is stuck; empty before.
    pub fn result_string(&self) -> (s: String)
        requires
            self.wf(),
        ensures
            s@ == (if self.term_spec() is Some { dec((1 - self.current + 1) as nat) } else { seq![] }),
    {
        let mut s = String::new();
        if self.term().is_some() {
            push_dec(&mut s, (1 - self.current) as u64 + 1);
        }
        s
    }

    pub fn legal_moves_string(&self) -> (s: String)
        requires
            self.wf(),
        ensures
            s@ == join_nums(u16s(self.moves_spec()), ','),
    {
        let v = self.gen();
        let mut s = String::new();
        push_joined(&mut s, &v, ',');
        s
    }

    /// Place on the cell that `mov` names if that is legal; false, leaving the game
    /// unchanged, otherwise.
    pub fn apply_text(&mut self, mov: &str) -> (ok: bool)
        requires
            old(self).wf(),
        ensures
            final(self).wf(),
            ok == (parse_uint(mov@, 65535) matches Some(v) && old(self).moves_spec().contains(v as u16)),
            !ok ==> *final(self) == *old(self),
            ok ==> final(self).grid@ == old(self).placed(parse_uint(mov@, 65535)->0)
                && final(self).current == 1 - old(self).current,
            ok ==> final(self).cols == old(self).cols && final(self).rows == old(self).rows,
    {
        let cs = chars_of(mov);
        proof {
            assert(cs@.subrange(0, cs@.len() as int) =~= mov@);
        }
        let v = match parse_uint_range(&cs, 0, cs.len(), 65535) {
            Some(v) => v,
            None => {
                return false;
            },
        };
        let m = v as u16;
        let moves = self.gen();
        let mut found = false;
        let mut i: usize = 0;
        while i < moves.len()
            invariant
                i <= moves@.len(),
                found == exists|j: int| 0 <= j < i && moves@[j] == m,
            decreases moves@.len() - i,
        {
            if moves[i] == m {
                found = true;
            }
            i += 1;
        }
        if !found {
            return false;
        }
        proof {
            lemma_moves_below(*self, self.grid@.len() as int, m);
        }
        self.make_move(&m);
        true
    }
}

} // verus!
