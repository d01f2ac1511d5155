//! Col and Snort: players colour empty cells in turn. In Col a cell may not touch a
//! cell of the mover's own colour; in Snort it may not touch the opponent's. A player
//! who cannot colour a cell loses.
use vstd::prelude::*;
use crate::capturego::{orth_spec, lemma_cell_arith, lemma_orth_in_range};
use crate::outcome::Outcome;
use crate::text::{push_char, push_dec, push_joined, join_nums, u16s, dec, parse_uint, parse_uint_range, chars_of};

verus! {

#[derive(Clone, Debug)]
pub struct Col {
    pub cols: usize,
    pub rows: usize,
    /// -1 uncoloured, else the owner (0 or 1).
    pub grid: Vec<i8>,
    pub current: u8,
    /// `false`: Col (avoid own colour); `true`: Snort (avoid the enemy's).
    pub avoid_enemy: bool,
}

impl Col {
    pub open spec fn wf(&self) -> bool {
        &&& self.grid@.len() == self.cols * self.rows
        &&& self.grid@.len() <= 65536
        &&& self.current <= 1
    }

    /// The colour the mover's cell may not touch.
    pub open spec fn banned(&self) -> i8 {
        if self.avoid_enemy {
            (1 - self.current) as i8
        } else {
            self.current as i8
        }
    }

    /// Cell `i` is uncoloured and touches no banned cell.
    pub open spec fn legal_spec(&self, i: int) -> bool {
        &&& self.grid@[i] == -1
        &&& forall|j: int| 0 <= j < orth_spec(self.cols as int, self.rows as int, i).len() ==> self.grid@[#[trigger] orth_spec(self.cols as int, self.rows as int, i)[j]] != self.banned()
    }

    pub open spec fn moves_upto(&self, n: int) -> Seq<u16>
        decreases n,
    {
        if n <= 0 {
            seq![]
        } else {
            self.moves_upto(n - 1) + if self.legal_spec(n - 1) { seq![(n - 1) as u16] } else { seq![] }
        }
    }

    /// The cells the side to move may colour, in order.
    pub open spec fn moves_spec(&self) -> Seq<u16> {
        self.moves_upto(self.grid@.len() as int)
    }

    pub open spec fn term_spec(&self) -> Option<Outcome> {
        if self.moves_spec().len() == 0 {
            Some(Outcome::Loss)
        } else {
            None
        }
    }
}

impl Col {
    pub fn new(cols: usize, rows: usize, avoid_enemy: bool) -> (g: Self)
        requires
            cols * rows <= 65536,
        ensures
            g.wf(),
            g.cols == cols,
            g.rows == rows,
            g.avoid_enemy == avoid_enemy,
            g.current == 0,
            forall|i: int| 0 <= i < cols * rows ==> #[trigger] g.grid@[i] == -1,
    {
        let n = cols * rows;
        let mut grid: Vec<i8> = Vec::new();
        let mut i: usize = 0;
        while i < n
            invariant
                i <= n,
                grid@.len() == i,
                forall|j: int| 0 <= j < i ==> #[trigger] grid@[j] == -1,
            decreases n - i,
        {
            grid.push(-1);
            i += 1;
        }
        Col { cols, rows, grid, current: 0, avoid_enemy }
    }

    /// The orthogonal neighbours of cell `i`: up, down, left, right.
    pub fn neighbors(&self, i: usize) -> (v: Vec<usize>)
        requires
            self.wf(),
            i < self.grid@.len(),
        ensures
            v@.len() == orth_spec(self.cols as int, self.rows as int, i as int).len(),
            forall|j: int| 0 <= j < v@.len() ==> #[trigger] v@[j] as int == orth_spec(self.cols as int, self.rows as int, i as int)[j],
            forall|j: int| 0 <= j < v@.len() ==> #[trigger] v@[j] < self.grid@.len(),
    {
        proof {
            lemma_cell_arith(self.cols as int, self.rows as int, i as int);
            lemma_orth_in_range(self.cols as int, self.rows as int, i as int);
        }
        let r = i / self.cols;
        let c = i % self.cols;
        let mut v: Vec<usize> = Vec::new();
        if r > 0 {
            v.push(i - self.cols);
        }
        if r + 1 < self.rows {
            v.push(i + self.cols);
        }
        if c > 0 {
            v.push(i - 1);
        }
        if c + 1 < self.cols {
            v.push(i + 1);
        }
        v
    }

    /// May the side to move colour cell `i`?
    pub fn is_legal(&self, i: usize) -> (b: bool)
        requires
            self.wf(),
            i < self.grid@.len(),
        ensures
            b == self.legal_spec(i as int),
    {
        if self.grid[i] != -1 {
            return false;
        }
        let banned: i8 = if self.avoid_enemy { 1 - self.current as i8 } else { self.current as i8 };
        let nbs = self.neighbors(i);
        let mut k: usize = 0;
        while k < nbs.len()
            invariant
                self.wf(),
                banned == self.banned(),
                i < self.grid@.len(),
                nbs@.len() == orth_spec(self.cols as int, self.rows as int, i as int).len(),
                forall|j: int| 0 <= j < nbs@.len() ==> #[trigger] nbs@[j] as int == orth_spec(self.cols as int, self.rows as int, i as int)[j],
                forall|j: int| 0 <= j < nbs@.len() ==> #[trigger] nbs@[j] < self.grid@.len(),
                k <= nbs@.len(),
                forall|j: int| 0 <= j < k ==> self.grid@[#[trigger] orth_spec(self.cols as int, self.rows as int, i as int)[j]] != banned,
            decreases nbs@.len() - k,
        {
            if self.grid[nbs[k]] == banned {
                assert(orth_spec(self.cols as int, self.rows as int, i as int)[k as int] == nbs@[k as int] as int);
                return false;
            }
            k += 1;
        }
        true
    }

    /// The cells the side to move may colour.
    pub fn gen(&self) -> (v: Vec<u16>)
        requires
            self.wf(),
        ensures
            v@ == self.moves_spec(),
    {
        let mut v: Vec<u16> = Vec::new();
        let mut i: usize = 0;
        while i < self.grid.len()
            invariant
                self.wf(),
                i <= self.grid@.len(),
                v@ == self.moves_upto(i as int),
            decreases self.grid@.len() - i,
        {
            if self.is_legal(i) {
                v.push(i as u16);
            }
            i += 1;
        }
        v
    }

    pub fn term(&self) -> (t: Option<Outcome>)
        requires
            self.wf(),
        ensures
            t == self.term_spec(),
    {
        if self.gen().len() == 0 {
            Some(Outcome::Loss)
        } else {
            None
        }
    }

    pub fn current_player(&self) -> (p: u8)
        ensures
            p == self.current,
    {
        self.current
    }

    /// Colour cell `m` for the side to move.
    pub fn make_move(&mut self, m: &u16)
        requires
            old(self).wf(),
            (*m as int) < old(self).grid@.len(),
        ensures
            final(self).wf(),
            final(self).cols == old(self).cols,
            final(self).rows == old(self).rows,
            final(self).avoid_enemy == old(self).avoid_enemy,
            final(self).grid@ == old(self).grid@.update(*m as int, old(self).current as i8),
            final(self).current == 1 - old(self).current,
    {
        self.grid.set(*m as usize, self.current as i8);
        self.current = 1 - self.current;
    }
}

/// Cell character: `X` first player, `O` second player, ` ` uncoloured.
pub open spec fn cell_char(v: i8) -> char {
    if v == 0 {
        'X'
    } else if v == 1 {
        'O'
    } else {
        ' '
    }
}

proof fn lemma_moves_below(g: Col, n: int, m: u16)
    requires
        g.moves_upto(n).contains(m),
    ensures
        (m as int) < n,
    decreases n,
{
    if n > 0 {
        let a = g.moves_upto(n - 1);
        if a.contains(m) {
            lemma_moves_below(g, n - 1, m);
        } else {
            let k = choose|k: int| 0 <= k < g.moves_upto(n).len() && g.moves_upto(n)[k] == m;
            assert(k >= a.len());
        }
    }
}

impl Col {
    pub open spec fn board_text(&self) -> Seq<char> {
        Seq::new(self.grid@.len(), |i: int| cell_char(self.grid@[i]))
    }

    pub fn board_string(&self) -> (s: String)
        ensures
            s@ == self.board_text(),
    {
        let mut s = String::new();
        let mut i: usize = 0;
        while i < self.grid.len()
            invariant
                i <= self.grid@.len(),
                s@ == Seq::new(i as nat, |j: int| cell_char(self.grid@[j])),
            decreases self.grid@.len() - i,
        {
            let v = self.grid[i];
            push_char(&mut s, if v == 0 { 'X' } else if v == 1 { 'O' } else { ' ' });
            assert(s@ =~= Seq::new((i + 1) as nat, |j: int| cell_char(self.grid@[j])));
            i += 1;
        }
        s
    }

    /// The winner counted from 1 once the side to move is stuck; empty while running.
    pub open spec fn result_text(&self) -> Seq<char> {
        match self.term_spec() {
            Some(Outcome::Loss) => dec((1 - self.current + 1) as nat),
            _ => seq![],
        }
    }

    pub fn result_string(&self) -> (s: String)
        requires
            self.wf(),
        ensures
            s@ == self.result_text(),
    {
        let mut s = String::new();
        match self.term() {
            Some(Outcome::Loss) => push_dec(&mut s, (1 - self.current) as u64 + 1),
            _ => {},
        }
        s
    }

    pub fn legal_moves_string(&self) -> (s: String)
        requires
            self.wf(),
        ensures
            s@ == join_nums(u16s(self.moves_spec()), ','),
    {
        let moves = self.gen();
        let mut s = String::new();
        push_joined(&mut s, &moves, ',');
        assert(s@ =~= join_nums(u16s(self.moves_spec()), ','));
        s
    }

    /// Read a cell number and colour it if legal; false, leaving the game unchanged,
    /// otherwise.
    pub fn apply_text(&mut self, mov: &str) -> (ok: bool)
        requires
            old(self).wf(),
        ensures
            final(self).wf(),
            ok == (parse_uint(mov@, 65535) matches Some(v) && old(self).moves_spec().contains(v as u16)),
            !ok ==> *final(self) == *old(self),
            ok ==> final(self).grid@ == old(self).grid@.update(parse_uint(mov@, 65535)->0, old(self).current as i8),
            ok ==> final(self).current == 1 - old(self).current,
            ok ==> final(self).cols == old(self).cols && final(self).rows == old(self).rows,
            ok ==> final(self).avoid_enemy == old(self).avoid_enemy,
    {
        let cs = chars_of(mov);
        proof {
            assert(cs@.subrange(0, cs@.len() as int) =~= mov@);
        }
        let v = match parse_uint_range(&cs, 0, cs.len(), 65535) {
            Some(v) => v,
            None => {
                return false;
            },
        };
        let m = v as u16;
        let moves = self.gen();
        let mut found = false;
        let mut i: usize = 0;
        while i < moves.len()
            invariant
                i <= moves@.len(),
                found == exists|j: int| 0 <= j < i && moves@[j] == m,
            decreases moves@.len() - i,
        {
            if moves[i] == m {
                found = true;
            }
            i += 1;
        }
        if !found {
            return false;
        }
        proof {
            lemma_moves_below(*self, self.grid@.len() as int, m);
        }
        self.make_move(&m);
        true
    }
}

} // verus!
