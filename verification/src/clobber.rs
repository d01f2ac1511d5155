//! Clobber: stones of both colours fill a checkerboard; a move takes one of your
//! stones onto an orthogonally adjacent enemy stone, removing it. A player who cannot
//! move loses.
use vstd::prelude::*;
use crate::capturego::{orth_spec, lemma_cell_arith, lemma_orth_in_range};
use crate::gridlib::idx;
use crate::outcome::Outcome;
use crate::text::{push_char, push_dec, push_str, dec, join_nums, u16s, parse_list, parse_u16_list, chars_of, push_joined, lemma_parse_list_join};

verus! {

#[derive(Clone, Copy, Debug, PartialEq, Eq, Structural)]
pub struct CbMove {
    pub from: u16,
    pub to: u16,
}

#[derive(Clone, Debug)]
pub struct Clobber {
    /// -1 empty, 0 first player's stone, 1 second player's stone.
    pub board: Vec<i8>,
    pub cols: usize,
    pub rows: usize,
    pub current: u8,
}

/// Number of the first `k` neighbours in `nbs` holding `enemy`.
pub open spec fn enemies_upto(b: Seq<i8>, nbs: Seq<int>, enemy: i8, k: int) -> int
    decreases k,
{
    if k <= 0 {
        0
    } else {
        enemies_upto(b, nbs, enemy, k - 1) + if b[nbs[k - 1]] == enemy { 1int } else { 0int }
    }
}

proof fn lemma_enemies_bound(b: Seq<i8>, nbs: Seq<int>, enemy: i8, k: int)
    ensures
        0 <= enemies_upto(b, nbs, enemy, k) <= if k < 0 { 0 } else { k },
    decreases k,
{
    if k > 0 {
        lemma_enemies_bound(b, nbs, enemy, k - 1);
    }
}

impl Clobber {
    pub open spec fn wf(&self) -> bool {
        &&& self.board@.len() == self.cols * self.rows
        &&& self.board@.len() <= 65536
        &&& self.current <= 1
    }

    pub open spec fn nbs(&self, i: int) -> Seq<int> {
        orth_spec(self.cols as int, self.rows as int, i)
    }

    /// Captures from cell `i` onto its first `k` neighbours.
    pub open spec fn captures_from(&self, i: int, k: int) -> Seq<CbMove>
        decreases k,
    {
        if k <= 0 {
            seq![]
        } else {
            self.captures_from(i, k - 1) + if self.board@[self.nbs(i)[k - 1]] == (1 - self.current) as i8 {
                seq![CbMove { from: i as u16, to: self.nbs(i)[k - 1] as u16 }]
            } else {
                seq![]
            }
        }
    }

    pub open spec fn moves_upto(&self, n: int) -> Seq<CbMove>
        decreases n,
    {
        if n <= 0 {
            seq![]
        } else {
            self.moves_upto(n - 1) + if self.board@[n - 1] == self.current as i8 {
                self.captures_from(n - 1, self.nbs(n - 1).len() as int)
            } else {
                seq![]
            }
        }
    }

    /// The captures of the side to move: cell by cell, neighbours up, down, left, right.
    pub open spec fn moves_spec(&self) -> Seq<CbMove> {
        self.moves_upto(self.board@.len() as int)
    }

    /// Captures available to `p` over the first `n` cells.
    pub open spec fn mobility_upto(&self, p: i8, n: int) -> int
        decreases n,
    {
        if n <= 0 {
            0
        } else {
            self.mobility_upto(p, n - 1) + if self.board@[n - 1] == p {
                enemies_upto(self.board@, self.nbs(n - 1), (1 - p) as i8, self.nbs(n - 1).len() as int)
            } else {
                0
            }
        }
    }

    pub open spec fn term_spec(&self) -> Option<Outcome> {
        if self.moves_spec().len() == 0 {
            Some(Outcome::Loss)
        } else {
            None
        }
    }
}

impl Clobber {
    /// A checkerboard of stones: first player's where `row + col` is even.
    pub fn new(cols: usize, rows: usize) -> (g: Self)
        requires
            cols * rows <= 65536,
        ensures
            g.wf(),
            g.cols == cols,
            g.rows == rows,
            g.current == 0,
            forall|i: int| 0 <= i < cols * rows ==> #[trigger] g.board@[i] == ((i / cols as int + i % cols as int) % 2) as i8,
    {
        let mut board: Vec<i8> = Vec::new();
        let mut r: usize = 0;
        while r < rows
            invariant
                cols * rows <= 65536,
                r <= rows,
                board@.len() == r * cols,
                forall|i: int| 0 <= i < board@.len() ==> #[trigger] board@[i] == ((i / cols as int + i % cols as int) % 2) as i8,
            decreases rows - r,
        {
            let mut c: usize = 0;
            while c < cols
                invariant
                    cols * rows <= 65536,
                    r < rows,
                    c <= cols,
                    board@.len() == r * cols + c,
                    forall|i: int| 0 <= i < board@.len() ==> #[trigger] board@[i] == ((i / cols as int + i % cols as int) % 2) as i8,
                decreases cols - c,
            {
                proof {
                    assert(r * cols + c < cols * rows) by (nonlinear_arith)
                        requires
                            r < rows,
                            c < cols,
                    ;
                    vstd::arithmetic::div_mod::lemma_fundamental_div_mod_converse((r * cols + c) as int, cols as int, r as int, c as int);
                }
                board.push(((r + c) % 2) as i8);
                c += 1;
            }
            assert((r + 1) * cols == r * cols + cols) by (nonlinear_arith);
            r += 1;
        }
        assert(rows * cols == cols * rows) by (nonlinear_arith);
        Clobber { board, cols, rows, current: 0 }
    }

    /// The orthogonal neighbours of `(r, c)`: up, down, left, right.
    pub fn orth(&self, r: usize, c: usize) -> (v: Vec<usize>)
        requires
            self.wf(),
            r < self.rows,
            c < self.cols,
        ensures
            v@.len() == self.nbs(r * self.cols + c).len(),
            forall|j: int| 0 <= j < v@.len() ==> #[trigger] v@[j] as int == self.nbs(r * self.cols + c)[j],
            forall|j: int| 0 <= j < v@.len() ==> #[trigger] v@[j] < self.board@.len(),
    {
        let ghost cell = r * self.cols + c;
        proof {
            assert(cell < self.cols * self.rows) by (nonlinear_arith)
                requires
                    r < self.rows,
                    c < self.cols,
                    cell == r * self.cols + c,
            ;
            lemma_cell_arith(self.cols as int, self.rows as int, cell);
            lemma_orth_in_range(self.cols as int, self.rows as int, cell);
            vstd::arithmetic::div_mod::lemma_fundamental_div_mod_converse(cell, self.cols as int, r as int, c as int);
        }
        let mut v: Vec<usize> = Vec::new();
        if r > 0 {
            v.push(idx(r - 1, c, self.cols));
        }
        if r + 1 < self.rows {
            v.push(idx(r + 1, c, self.cols));
        }
        if c > 0 {
            v.push(idx(r, c - 1, self.cols));
        }
        if c + 1 < self.cols {
            v.push(idx(r, c + 1, self.cols));
        }
        v
    }
}

impl Clobber {
    /// The captures of the side to move.
    pub fn gen(&self) -> (v: Vec<CbMove>)
        requires
            self.wf(),
        ensures
            v@ == self.moves_spec(),
    {
        let mut v: Vec<CbMove> = Vec::new();
        let enemy: i8 = 1 - self.current as i8;
        let mut r: usize = 0;
        while r < self.rows
            invariant
                self.wf(),
                enemy == 1 - self.current,
                r <= self.rows,
                v@ == self.moves_upto(r * self.cols),
            decreases self.rows - r,
        {
            let mut c: usize = 0;
            while c < self.cols
                invariant
                    self.wf(),
                    enemy == 1 - self.current,
                    r < self.rows,
                    c <= self.cols,
                    v@ == self.moves_upto(r * self.cols + c),
                decreases self.cols - c,
            {
                proof {
                    assert(r * self.cols + c < self.cols * self.rows) by (nonlinear_arith)
                        requires
                            r < self.rows,
                            c < self.cols,
                    ;
                }
                let from = idx(r, c, self.cols);
                let ghost v0 = v@;
                if self.board[from] == self.current as i8 {
                    let nbs = self.orth(r, c);
                    let mut k: usize = 0;
                    while k < nbs.len()
                        invariant
                            self.wf(),
                            enemy == 1 - self.current,
                            from == r * self.cols + c,
                            from < self.board@.len(),
                            nbs@.len() == self.nbs(from as int).len(),
                            forall|j: int| 0 <= j < nbs@.len() ==> #[trigger] nbs@[j] as int == self.nbs(from as int)[j],
                            forall|j: int| 0 <= j < nbs@.len() ==> #[trigger] nbs@[j] < self.board@.len(),
                            k <= nbs@.len(),
                            v@ == v0 + self.captures_from(from as int, k as int),
                        decreases nbs@.len() - k,
                    {
                        let to = nbs[k];
                        if self.board[to] == enemy {
                            v.push(CbMove { from: from as u16, to: to as u16 });
                        }
                        assert(v@ =~= v0 + self.captures_from(from as int, k + 1));
                        k += 1;
                    }
                }
                assert(v@ =~= self.moves_upto(r * self.cols + c + 1));
                c += 1;
            }
            assert((r + 1) * self.cols == r * self.cols + self.cols) by (nonlinear_arith);
            r += 1;
        }
        assert(self.rows * self.cols == self.board@.len()) by (nonlinear_arith)
            requires
                self.board@.len() == self.cols * self.rows,
        ;
        v
    }

    /// Captures available to `p`: the heuristic mobility.
    pub fn moves_for(&self, p: i8) -> (m: i64)
        requires
            self.wf(),
            p >= -126,
        ensures
            m == self.mobility_upto(p, self.board@.len() as int),
    {
        let mut m: i64 = 0;
        let enemy: i8 = 1 - p;
        let mut r: usize = 0;
        while r < self.rows
            invariant
                self.wf(),
                enemy == 1 - p,
                p >= -126,
                r <= self.rows,
                m == self.mobility_upto(p, r * self.cols),
                0 <= m <= 4 * (r * self.cols),
            decreases self.rows - r,
        {
            let mut c: usize = 0;
            while c < self.cols
                invariant
                    self.wf(),
                    enemy == 1 - p,
                    p >= -126,
                    r < self.rows,
                    c <= self.cols,
                    m == self.mobility_upto(p, r * self.cols + c),
                    0 <= m <= 4 * (r * self.cols + c),
                decreases self.cols - c,
            {
                proof {
                    assert(r * self.cols + c < self.cols * self.rows) by (nonlinear_arith)
                        requires
                            r < self.rows,
                            c < self.cols,
                    ;
                }
                let from = idx(r, c, self.cols);
                if self.board[from] == p {
                    let nbs = self.orth(r, c);
                    let ghost m0 = m;
                    let mut k: usize = 0;
                    while k < nbs.len()
                        invariant
                            self.wf(),
                            enemy == 1 - p,
                            from == r * self.cols + c,
                            from < self.board@.len(),
                            nbs@.len() == self.nbs(from as int).len(),
                            nbs@.len() <= 4,
                            forall|j: int| 0 <= j < nbs@.len() ==> #[trigger] nbs@[j] as int == self.nbs(from as int)[j],
                            forall|j: int| 0 <= j < nbs@.len() ==> #[trigger] nbs@[j] < self.board@.len(),
                            k <= nbs@.len(),
                            m == m0 + enemies_upto(self.board@, self.nbs(from as int), enemy, k as int),
                            0 <= m0 <= 4 * (r * self.cols + c),
                        decreases nbs@.len() - k,
                    {
                        proof {
                            lemma_enemies_bound(self.board@, self.nbs(from as int), enemy, k as int);
                        }
                        if self.board[nbs[k]] == enemy {
                            m += 1;
                        }
                        k += 1;
                    }
                    proof {
                        lemma_enemies_bound(self.board@, self.nbs(from as int), enemy, nbs@.len() as int);
                    }
                }
                c += 1;
            }
            assert((r + 1) * self.cols == r * self.cols + self.cols) by (nonlinear_arith);
            r += 1;
        }
        assert(self.rows * self.cols == self.board@.len()) by (nonlinear_arith)
            requires
                self.board@.len() == self.cols * self.rows,
        ;
        m
    }

    pub fn term(&self) -> (t: Option<Outcome>)
        requires
            self.wf(),
        ensures
            t == self.term_spec(),
    {
        if self.gen().len() == 0 {
            Some(Outcome::Loss)
        } else {
            None
        }
    }

    pub fn current_player(&self) -> (p: u8)
        ensures
            p == self.current,
    {
        self.current
    }

    /// Move the stone on `from` onto the enemy stone on `to`.
    pub fn make_move(&mut self, m: &CbMove)
        requires
            old(self).wf(),
            (m.from as int) < old(self).board@.len(),
            (m.to as int) < old(self).board@.len(),
        ensures
            final(self).wf(),
            final(self).cols == old(self).cols,
            final(self).rows == old(self).rows,
            final(self).board@ == old(self).board@.update(m.to as int, old(self).current as i8).update(m.from as int, -1i8),
            final(self).current == 1 - old(self).current,
    {
        self.board.set(m.to as usize, self.current as i8);
        self.board.set(m.from as usize, -1);
        self.current = 1 - self.current;
    }
}

/// Text of a move: `from-to`.
pub open spec fn move_text(m: CbMove) -> Seq<char> {
    join_nums(seq![m.from as int, m.to as int], '-')
}

pub open spec fn moves_text(ms: Seq<CbMove>) -> Seq<char>
    decreases ms.len(),
{
    if ms.len() == 0 {
        seq![]
    } else if ms.len() == 1 {
        move_text(ms[0])
    } else {
        moves_text(ms.drop_last()) + seq![','] + move_text(ms.last())
    }
}

/// The move named by `cs`: two numbers joined by `-`, each read as a `u16`.
pub open spec fn parse_move_spec(cs: Seq<char>) -> Option<CbMove> {
    match parse_list(cs, '-', 65535) {
        Some(v) => if v.len() == 2 {
            Some(CbMove { from: v[0] as u16, to: v[1] as u16 })
        } else {
            None
        },
        None => None,
    }
}

impl CbMove {
    pub fn encode(&self) -> (s: String)
        ensures
            s@ == move_text(*self),
    {
        let v: Vec<u16> = vec![self.from, self.to];
        let mut s = String::new();
        push_joined(&mut s, &v, '-');
        assert(u16s(v@) =~= seq![self.from as int, self.to as int]);
        s
    }
}

/// Read a move `from-to`.
pub fn parse_cb_move(mov: &str) -> (r: Option<CbMove>)
    ensures
        r == parse_move_spec(mov@),
{
    let cs = chars_of(mov);
    match parse_u16_list(&cs, '-') {
        Some(p) => if p.len() == 2 {
            assert(u16s(p@)[0] == p@[0] as int && u16s(p@)[1] == p@[1] as int);
            Some(CbMove { from: p[0], to: p[1] })
        } else {
            None
        },
        None => None,
    }
}

/// The text of a move reads back as that move.
pub proof fn lemma_move_text_round_trip(m: CbMove)
    ensures
        parse_move_spec(move_text(m)) == Some(m),
{
    lemma_parse_list_join(seq![m.from as int, m.to as int], '-', 65535);
}

/// Cell character: `X` first player, `O` second player, ` ` empty.
pub open spec fn cell_char(v: i8) -> char {
    if v == 0 {
        'X'
    } else if v == 1 {
        'O'
    } else {
        ' '
    }
}

impl Clobber {
    pub open spec fn board_text(&self) -> Seq<char> {
        Seq::new(self.board@.len(), |i: int| cell_char(self.board@[i]))
    }

    pub fn board_string(&self) -> (s: String)
        ensures
            s@ == self.board_text(),
    {
        let mut s = String::new();
        let mut i: usize = 0;
        while i < self.board.len()
            invariant
                i <= self.board@.len(),
                s@ == Seq::new(i as nat, |j: int| cell_char(self.board@[j])),
            decreases self.board@.len() - i,
        {
            let v = self.board[i];
            push_char(&mut s, if v == 0 { 'X' } else if v == 1 { 'O' } else { ' ' });
            assert(s@ =~= Seq::new((i + 1) as nat, |j: int| cell_char(self.board@[j])));
            i += 1;
        }
        s
    }

    /// The winner counted from 1 once the side to move is stuck; empty while running.
    pub open spec fn result_text(&self) -> Seq<char> {
        match self.term_spec() {
            Some(Outcome::Loss) => dec((1 - self.current + 1) as nat),
            _ => seq![],
        }
    }

    pub fn result_string(&self) -> (s: String)
        requires
            self.wf(),
        ensures
            s@ == self.result_text(),
    {
        let mut s = String::new();
        match self.term() {
            Some(Outcome::Loss) => push_dec(&mut s, (1 - self.current) as u64 + 1),
            _ => {},
        }
        s
    }

    pub fn legal_moves_string(&self) -> (s: String)
        requires
            self.wf(),
        ensures
            s@ == moves_text(self.moves_spec()),
    {
        let moves = self.gen();
        let mut s = String::new();
        let mut i: usize = 0;
        while i < moves.len()
            invariant
                i <= moves@.len(),
                s@ == moves_text(moves@.take(i as int)),
            decreases moves@.len() - i,
        {
            if i > 0 {
                push_char(&mut s, ',');
            }
            let t = moves[i].encode();
            push_str(&mut s, t.as_str());
            proof {
                assert(moves@.take(i + 1).drop_last() =~= moves@.take(i as int));
            }
            i += 1;
        }
        assert(moves@.take(moves@.len() as int) =~= moves@);
        s
    }

    /// A legal capture lies on the board.
    proof fn lemma_upto_on_board(&self, n: int, m: CbMove)
        requires
            self.wf(),
            0 <= n <= self.board@.len(),
            self.moves_upto(n).contains(m),
        ensures
            (m.from as int) < self.board@.len(),
            (m.to as int) < self.board@.len(),
        decreases n,
    {
        if n > 0 {
            let a = self.moves_upto(n - 1);
            if a.contains(m) {
                self.lemma_upto_on_board(n - 1, m);
            } else {
                let i = n - 1;
                let b = if self.board@[i] == self.current as i8 { self.captures_from(i, self.nbs(i).len() as int) } else { seq![] };
                let k = choose|k: int| 0 <= k < (a + b).len() && (a + b)[k] == m;
                assert(b[k - a.len()] == m);
                lemma_orth_in_range(self.cols as int, self.rows as int, i);
                self.lemma_captures_on_board(i, self.nbs(i).len() as int, m);
            }
        }
    }

    proof fn lemma_captures_on_board(&self, i: int, k: int, m: CbMove)
        requires
            self.wf(),
            0 <= i < self.board@.len(),
            0 <= k <= self.nbs(i).len(),
            forall|j: int| 0 <= j < self.nbs(i).len() ==> 0 <= #[trigger] self.nbs(i)[j] < self.board@.len(),
            self.captures_from(i, k).contains(m),
        ensures
            (m.from as int) < self.board@.len(),
            (m.to as int) < self.board@.len(),
        decreases k,
    {
        if k > 0 {
            let a = self.captures_from(i, k - 1);
            if a.contains(m) {
                self.lemma_captures_on_board(i, k - 1, m);
            } else {
                let b = if self.board@[self.nbs(i)[k - 1]] == (1 - self.current) as i8 {
                    seq![CbMove { from: i as u16, to: self.nbs(i)[k - 1] as u16 }]
                } else {
                    seq![]
                };
                let q = choose|q: int| 0 <= q < (a + b).len() && (a + b)[q] == m;
                assert(b[q - a.len()] == m);
            }
        }
    }

    /// Read `mov` and play it if legal; false, leaving the game unchanged, otherwise.
    pub fn apply_text(&mut self, mov: &str) -> (ok: bool)
        requires
            old(self).wf(),
        ensures
            final(self).wf(),
            ok == (parse_move_spec(mov@) matches Some(m) && old(self).moves_spec().contains(m)),
            !ok ==> *final(self) == *old(self),
            ok ==> ({
                let m = parse_move_spec(mov@)->0;
                &&& final(self).board@ == old(self).board@.update(m.to as int, old(self).current as i8).update(m.from as int, -1i8)
                &&& final(self).current == 1 - old(self).current
            }),
            ok ==> final(self).cols == old(self).cols && final(self).rows == old(self).rows,
    {
        let m = match parse_cb_move(mov) {
            Some(m) => m,
            None => {
                return false;
            },
        };
        let moves = self.gen();
        let mut found = false;
        let mut i: usize = 0;
        while i < moves.len()
            invariant
                i <= moves@.len(),
                found == exists|j: int| 0 <= j < i && moves@[j] == m,
            decreases moves@.len() - i,
        {
            if moves[i] == m {
                found = true;
            }
            i += 1;
        }
        if !found {
            return false;
        }
        proof {
            self.lemma_upto_on_board(self.board@.len() as int, m);
        }
        self.make_move(&m);
        true
    }
}


impl Clobber {
    proof fn lemma_captures_from_has(&self, i: int, k: int, j: int)
        requires
            0 <= j < k <= self.nbs(i).len(),
            self.board@[self.nbs(i)[j]] == (1 - self.current) as i8,
        ensures
            self.captures_from(i, k).contains(CbMove { from: i as u16, to: self.nbs(i)[j] as u16 }),
        decreases k,
    {
        let m = CbMove { from: i as u16, to: self.nbs(i)[j] as u16 };
        let prev = self.captures_from(i, k - 1);
        let last = if self.board@[self.nbs(i)[k - 1]] == (1 - self.current) as i8 {
            seq![CbMove { from: i as u16, to: self.nbs(i)[k - 1] as u16 }]
        } else {
            seq![]
        };
        if j < k - 1 {
            self.lemma_captures_from_has(i, k - 1, j);
            let x = choose|x: int| 0 <= x < prev.len() && prev[x] == m;
            assert((prev + last)[x] == m);
        } else {
            assert((prev + last)[prev.len() as int] == m);
        }
    }

    proof fn lemma_moves_upto_has(&self, n: int, i: int, m: CbMove)
        requires
            0 <= i < n,
            self.board@[i] == self.current as i8,
            self.captures_from(i, self.nbs(i).len() as int).contains(m),
        ensures
            self.moves_upto(n).contains(m),
        decreases n,
    {
        let prev = self.moves_upto(n - 1);
        let last = if self.board@[n - 1] == self.current as i8 {
            self.captures_from(n - 1, self.nbs(n - 1).len() as int)
        } else {
            seq![]
        };
        if i < n - 1 {
            self.lemma_moves_upto_has(n - 1, i, m);
            let x = choose|x: int| 0 <= x < prev.len() && prev[x] == m;
            assert((prev + last)[x] == m);
        } else {
            let x = choose|x: int| 0 <= x < last.len() && last[x] == m;
            assert((prev + last)[prev.len() + x] == m);
        }
    }

    /// Captures are complete: a stone of the side to move may clobber an enemy stone one
    /// step up, down, left or right of it, and each such capture is generated.
    pub proof fn lemma_every_clobber_generated(&self, r: int, c: int, r2: int, c2: int)
        requires
            self.wf(),
            0 <= r < self.rows,
            0 <= c < self.cols,
            0 <= r2 < self.rows,
            0 <= c2 < self.cols,
            (if r2 >= r { r2 - r } else { r - r2 }) + (if c2 >= c { c2 - c } else { c - c2 }) == 1,
            self.board@[r * self.cols + c] == self.current as i8,
            self.board@[r2 * self.cols + c2] == 1 - self.current,
        ensures
            self.moves_spec().contains(CbMove { from: (r * self.cols + c) as u16, to: (r2 * self.cols + c2) as u16 }),
    {
        let (cols, rows) = (self.cols as int, self.rows as int);
        let i = r * cols + c;
        crate::gridlib::lemma_cell_index(rows, cols, r, c);
        crate::gridlib::lemma_cell_index(rows, cols, r2, c2);
        vstd::arithmetic::div_mod::lemma_fundamental_div_mod_converse(i, cols, r, c);
        crate::capturego::lemma_orth_exact(cols, rows, i, r2, c2);
        let nb = self.nbs(i);
        let j = choose|j: int| 0 <= j < nb.len() && nb[j] == r2 * cols + c2;
        self.lemma_captures_from_has(i, nb.len() as int, j);
        self.lemma_moves_upto_has(self.board@.len() as int, i, CbMove { from: i as u16, to: nb[j] as u16 });
    }
}

} // verus!
