//! Chomp: pick a cookie and eat it together with every cookie below and to its
//! right. Whoever eats the poisoned top-left cookie loses.
use vstd::prelude::*;
use crate::capturego::lemma_cell_arith;
use crate::outcome::Outcome;
use crate::text::{push_char, push_dec, push_joined, join_nums, u16s, dec, chars_of, parse_uint, parse_uint_range};

verus! {

#[derive(Clone, Debug)]
pub struct Chomp {
    /// 1 = cookie present, -1 = eaten.
    pub board: Vec<i8>,
    pub cols: usize,
    pub rows: usize,
    pub current: u8,
}

/// The side of a table, clamped to 2..=7.
pub fn table_side(n: u32) -> (s: usize)
    ensures
        s == (if n < 2 { 2 } else if n > 7 { 7 } else { n }),
{
    if n < 2 {
        2
    } else if n > 7 {
        7
    } else {
        n as usize
    }
}

impl Chomp {
    pub open spec fn wf(&self) -> bool {
        &&& 1 <= self.cols <= 1024
        &&& 1 <= self.rows <= 1024
        &&& self.board@.len() == self.cols * self.rows
        &&& self.board@.len() <= 65536
        &&& self.current <= 1
    }

    /// Cell `j` lies at or below and at or right of cell `i`.
    pub open spec fn in_quadrant(&self, i: int, j: int) -> bool {
        j / (self.cols as int) >= i / (self.cols as int) && j % (self.cols as int) >= i % (self.cols as int)
    }

    /// The board after eating cell `i`.
    pub open spec fn eaten(&self, i: int) -> Seq<i8> {
        Seq::new(self.board@.len(), |j: int| if self.in_quadrant(i, j) { -1i8 } else { self.board@[j] })
    }

    /// Once the poison is eaten the side to move (who did not eat it) has won.
    pub open spec fn term_spec(&self) -> Option<Outcome> {
        if self.board@[0] == -1 {
            Some(Outcome::Win)
        } else {
            None
        }
    }

    pub open spec fn cookies_upto(&self, n: int) -> Seq<u16>
        decreases n,
    {
        if n <= 0 {
            seq![]
        } else {
            self.cookies_upto(n - 1) + if self.board@[n - 1] == 1 { seq![(n - 1) as u16] } else { seq![] }
        }
    }

    /// The cookies that remain, while the game runs.
    pub open spec fn moves_spec(&self) -> Seq<u16> {
        if self.term_spec() is Some {
            seq![]
        } else {
            self.cookies_upto(self.board@.len() as int)
        }
    }

    pub fn new(cols: usize, rows: usize) -> (g: Self)
        requires
            1 <= cols <= 256,
            1 <= rows <= 256,
        ensures
            g.wf(),
            g.cols == cols,
            g.rows == rows,
            g.current == 0,
            g.board@ == Seq::new((cols * rows) as nat, |i: int| 1i8),
    {
        proof {
            crate::reversi::lemma_dims(cols as int, rows as int);
            assert(cols * rows <= 65536) by (nonlinear_arith)
                requires
                    cols <= 256,
                    rows <= 256,
            ;
        }
        let n = cols * rows;
        let mut board: Vec<i8> = Vec::new();
        let mut i: usize = 0;
        while i < n
            invariant
                i <= n,
                board@ == Seq::new(i as nat, |j: int| 1i8),
            decreases n - i,
        {
            board.push(1);
            proof {
                assert(board@ =~= Seq::new((i + 1) as nat, |j: int| 1i8));
            }
            i += 1;
        }
        Chomp { board, cols, rows, current: 0 }
    }

    pub fn term(&self) -> (t: Option<Outcome>)
        requires
            self.wf(),
        ensures
            t == self.term_spec(),
    {
        proof {
            crate::reversi::lemma_dims(self.cols as int, self.rows as int);
        }
        if self.board[0] == -1 {
            Some(Outcome::Win)
        } else {
            None
        }
    }

    pub fn current_player(&self) -> (p: u8)
        ensures
            p == self.current,
    {
        self.current
    }

    pub fn available_moves(&self) -> (v: Vec<u16>)
        requires
            self.wf(),
        ensures
            v@ == self.moves_spec(),
    {
        if self.term().is_some() {
            return Vec::new();
        }
        let mut v: Vec<u16> = Vec::new();
        let mut i: usize = 0;
        while i < self.board.len()
            invariant
                self.wf(),
                i <= self.board@.len(),
                v@ == self.cookies_upto(i as int),
            decreases self.board@.len() - i,
        {
            if self.board[i] == 1 {
                v.push(i as u16);
            }
            i += 1;
        }
        v
    }

    /// Eat cell `m` and every cookie below and right of it; the other side moves next.
    pub fn make_move(&mut self, m: &u16)
        requires
            old(self).wf(),
            (*m as int) < old(self).board@.len(),
        ensures
            final(self).wf(),
            final(self).cols == old(self).cols,
            final(self).rows == old(self).rows,
            final(self).board@ == old(self).eaten(*m as int),
            final(self).current == 1 - old(self).current,
    {
        let ghost g0 = *self;
        proof {
            lemma_cell_arith(self.cols as int, self.rows as int, *m as int);
            crate::reversi::lemma_dims(self.cols as int, self.rows as int);
        }
        let cell = *m as usize;
        let r = cell / self.cols;
        let c = cell % self.cols;
        let mut i: usize = 0;
        while i < self.board.len()
            invariant
                self.wf(),
                self.cols == g0.cols,
                self.rows == g0.rows,
                self.current == g0.current,
                self.board@.len() == g0.board@.len(),
                r == cell / self.cols,
                c == cell % self.cols,
                i <= self.board@.len(),
                forall|j: int| 0 <= j < i ==> #[trigger] self.board@[j] == g0.eaten(cell as int)[j],
                forall|j: int| i <= j < self.board@.len() ==> #[trigger] self.board@[j] == g0.board@[j],
            decreases self.board@.len() - i,
        {
            if i / self.cols >= r && i % self.cols >= c {
                self.board.set(i, -1);
            }
            i += 1;
        }
        proof {
            assert(self.board@ =~= g0.eaten(cell as int));
        }
        self.current = 1 - self.current;
    }
}

/// Cell character: `#` cookie, ` ` eaten.
pub open spec fn cell_char(v: i8) -> char {
    if v == 1 {
        '#'
    } else {
        ' '
    }
}

impl Chomp {
    pub fn board_string(&self) -> (s: String)
        ensures
            s@ == Seq::new(self.board@.len(), |i: int| cell_char(self.board@[i])),
    {
        let mut s = String::new();
        let mut i: usize = 0;
        while i < self.board.len()
            invariant
                i <= self.board@.len(),
                s@ == Seq::new(i as nat, |j: int| cell_char(self.board@[j])),
            decreases self.board@.len() - i,
        {
            push_char(&mut s, if self.board[i] == 1 { '#' } else { ' ' });
            assert(s@ =~= Seq::new((i + 1) as nat, |j: int| cell_char(self.board@[j])));
            i += 1;
        }
        s
    }

    /// The winner counted from 1 once the poison is eaten; empty before.
    pub fn result_string(&self) -> (s: String)
        requires
            self.wf(),
        ensures
            s@ == (if self.term_spec() is Some { dec((self.current + 1) as nat) } else { seq![] }),
    {
        let mut s = String::new();
        if self.term().is_some() {
            push_dec(&mut s, self.current as u64 + 1);
        }
        s
    }

    pub fn legal_moves_string(&self) -> (s: String)
        requires
            self.wf(),
        ensures
            s@ == join_nums(u16s(self.moves_spec()), ','),
    {
        let v = self.available_moves();
        let mut s = String::new();
        push_joined(&mut s, &v, ',');
        s
    }

    /// Eat the cell that `mov` names if it holds a cookie and the game runs; false,
    /// leaving the game unchanged, otherwise.
    pub fn apply_text(&mut self, mov: &str) -> (ok: bool)
        requires
            old(self).wf(),
        ensures
            final(self).wf(),
            ok == (parse_uint(mov@, 65535) matches Some(v) && v < old(self).board@.len()
                && old(self).moves_spec().contains(v as u16)),
            !ok ==> *final(self) == *old(self),
            ok ==> final(self).board@ == old(self).eaten(parse_uint(mov@, 65535)->0)
                && final(self).current == 1 - old(self).current,
            ok ==> final(self).cols == old(self).cols && final(self).rows == old(self).rows,
    {
        let cs = chars_of(mov);
        proof {
            assert(cs@.subrange(0, cs@.len() as int) =~= mov@);
        }
        let v = match parse_uint_range(&cs, 0, cs.len(), 65535) {
            Some(v) => v,
            None => {
                return false;
            },
        };
        if v as usize >= self.board.len() {
            return false;
        }
        let m = v as u16;
        let moves = self.available_moves();
        let mut found = false;
        let mut i: usize = 0;
        while i < moves.len()
            invariant
                i <= moves@.len(),
                found == exists|j: int| 0 <= j < i && moves@[j] == m,
            decreases moves@.len() - i,
        {
            if moves[i] == m {
                found = true;
            }
            i += 1;
        }
        if !found {
            return false;
        }
        self.make_move(&m);
        true
    }
}

/// The eaten cells of `b` form a staircase: whenever a cell is eaten, so is every
/// cell below and right of it.
pub open spec fn staircase(b: Seq<i8>, cols: int) -> bool {
    forall|i: int, j: int|
        #![trigger b[i], b[j]]
        0 <= i < b.len() && 0 <= j < b.len() && b[i] == -1 && j / cols >= i / cols && j % cols >= i % cols
            ==> b[j] == -1
}

/// Eating keeps the staircase shape: a position whose eaten cells form a staircase
/// still does after any bite.
pub proof fn lemma_bite_keeps_staircase(g: Chomp, m: int)
    requires
        g.wf(),
        0 <= m < g.board@.len(),
        staircase(g.board@, g.cols as int),
    ensures
        staircase(g.eaten(m), g.cols as int),
{
    let e = g.eaten(m);
    assert forall|i: int, j: int|
        #![trigger e[i], e[j]]
        0 <= i < e.len() && 0 <= j < e.len() && e[i] == -1 && j / (g.cols as int) >= i / (g.cols as int)
            && j % (g.cols as int) >= i % (g.cols as int) implies e[j] == -1 by {
        if g.in_quadrant(m, i) {
            assert(g.in_quadrant(m, j));
        } else {
            assert(g.board@[i] == -1);
            assert(g.board@[j] == -1);
        }
    }
}

} // verus!
