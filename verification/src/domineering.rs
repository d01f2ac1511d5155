//! Domineering: players take turns placing dominoes on a grid, the first player
//! vertically and the second horizontally; a player who cannot place loses. In the
//! impartial Cram variant either player may place either orientation.
use vstd::prelude::*;
use crate::outcome::Outcome;
use crate::text::{push_char, push_dec, push_str, dec, join_nums, u16s, parse_list, parse_u16_list, chars_of, push_joined, lemma_parse_list_join};

verus! {

#[derive(Clone, Copy, Debug, PartialEq, Eq, Structural)]
pub struct DomMove {
    pub from: u16,
    pub to: u16,
}

#[derive(Clone, Debug)]
pub struct Domineering {
    pub cols: usize,
    pub rows: usize,
    /// -1 empty, else the owner (0 or 1).
    pub grid: Vec<i8>,
    pub current: u8,
    /// Impartial variant: either player may place either orientation.
    pub cram: bool,
}

impl Domineering {
    pub open spec fn wf(&self) -> bool {
        &&& self.grid@.len() == self.cols * self.rows
        &&& self.grid@.len() <= 65536
        &&& self.current <= 1
    }

    pub open spec fn vertical_ok(&self) -> bool {
        self.cram || self.current == 0
    }

    pub open spec fn horizontal_ok(&self) -> bool {
        self.cram || self.current == 1
    }

    /// The dominoes anchored at cell `i`: vertical (down) first, then horizontal
    /// (right), each when allowed and both cells are empty.
    pub open spec fn cell_moves(&self, i: int) -> Seq<DomMove> {
        let (r, c) = (i / self.cols as int, i % self.cols as int);
        if self.grid@[i] != -1 {
            seq![]
        } else {
            (if self.vertical_ok() && r + 1 < self.rows && self.grid@[i + self.cols] == -1 {
                seq![DomMove { from: i as u16, to: (i + self.cols) as u16 }]
            } else {
                seq![]
            }) + (if self.horizontal_ok() && c + 1 < self.cols && self.grid@[i + 1] == -1 {
                seq![DomMove { from: i as u16, to: (i + 1) as u16 }]
            } else {
                seq![]
            })
        }
    }

    pub open spec fn moves_upto(&self, n: int) -> Seq<DomMove>
        decreases n,
    {
        if n <= 0 {
            seq![]
        } else {
            self.moves_upto(n - 1) + self.cell_moves(n - 1)
        }
    }

    /// The placements of the side to move, anchor by anchor in row-major order.
    pub open spec fn moves_spec(&self) -> Seq<DomMove> {
        self.moves_upto(self.grid@.len() as int)
    }

    /// The side to move loses when it cannot place.
    pub open spec fn term_spec(&self) -> Option<Outcome> {
        if self.moves_spec().len() == 0 {
            Some(Outcome::Loss)
        } else {
            None
        }
    }
}

impl Domineering {
    pub fn new(cols: usize, rows: usize, cram: bool) -> (g: Self)
        requires
            cols * rows <= 65536,
        ensures
            g.wf(),
            g.cols == cols,
            g.rows == rows,
            g.cram == cram,
            g.current == 0,
            forall|i: int| 0 <= i < cols * rows ==> #[trigger] g.grid@[i] == -1,
    {
        let n = cols * rows;
        let mut grid: Vec<i8> = Vec::new();
        let mut i: usize = 0;
        while i < n
            invariant
                i <= n,
                grid@.len() == i,
                forall|j: int| 0 <= j < i ==> #[trigger] grid@[j] == -1,
            decreases n - i,
        {
            grid.push(-1);
            i += 1;
        }
        Domineering { cols, rows, grid, current: 0, cram }
    }

    /// The placements of the side to move.
    pub fn gen(&self) -> (v: Vec<DomMove>)
        requires
            self.wf(),
        ensures
            v@ == self.moves_spec(),
    {
        let mut v: Vec<DomMove> = Vec::new();
        let vertical_ok = self.cram || self.current == 0;
        let horizontal_ok = self.cram || self.current == 1;
        let mut r: usize = 0;
        while r < self.rows
            invariant
                self.wf(),
                vertical_ok == self.vertical_ok(),
                horizontal_ok == self.horizontal_ok(),
                r <= self.rows,
                v@ == self.moves_upto(r * self.cols),
            decreases self.rows - r,
        {
            let mut c: usize = 0;
            while c < self.cols
                invariant
                    self.wf(),
                    vertical_ok == self.vertical_ok(),
                    horizontal_ok == self.horizontal_ok(),
                    r < self.rows,
                    c <= self.cols,
                    v@ == self.moves_upto(r * self.cols + c),
                decreases self.cols - c,
            {
                proof {
                    assert(r * self.cols + c < self.cols * self.rows) by (nonlinear_arith)
                        requires
                            r < self.rows,
                            c < self.cols,
                    ;
                    vstd::arithmetic::div_mod::lemma_fundamental_div_mod_converse(
                        (r * self.cols + c) as int,
                        self.cols as int,
                        r as int,
                        c as int,
                    );
                    assert(r + 1 < self.rows ==> (r + 1) * self.cols + c < self.cols * self.rows) by (nonlinear_arith)
                        requires
                            c < self.cols,
                    ;
                    assert((r + 1) * self.cols == r * self.cols + self.cols) by (nonlinear_arith);
                    assert(c + 1 < self.cols ==> r * self.cols + c + 1 < self.cols * self.rows) by (nonlinear_arith)
                        requires
                            r < self.rows,
                    ;
                }
                let i = r * self.cols + c;
                let ghost v0 = v@;
                if self.grid[i] == -1 {
                    if vertical_ok && r + 1 < self.rows && self.grid[i + self.cols] == -1 {
                        v.push(DomMove { from: i as u16, to: (i + self.cols) as u16 });
                    }
                    if horizontal_ok && c + 1 < self.cols && self.grid[i + 1] == -1 {
                        v.push(DomMove { from: i as u16, to: (i + 1) as u16 });
                    }
                }
                assert(v@ =~= v0 + self.cell_moves(i as int));
                c += 1;
            }
            assert((r + 1) * self.cols == r * self.cols + self.cols) by (nonlinear_arith);
            r += 1;
        }
        proof {
            assert(self.rows * self.cols == self.grid@.len()) by (nonlinear_arith)
                requires
                    self.grid@.len() == self.cols * self.rows,
            ;
        }
        v
    }

    pub fn term(&self) -> (t: Option<Outcome>)
        requires
            self.wf(),
        ensures
            t == self.term_spec(),
    {
        if self.gen().len() == 0 {
            Some(Outcome::Loss)
        } else {
            None
        }
    }

    pub fn current_player(&self) -> (p: u8)
        ensures
            p == self.current,
    {
        self.current
    }

    /// Place the domino `m` for the side to move.
    pub fn make_move(&mut self, m: &DomMove)
        requires
            old(self).wf(),
            (m.from as int) < old(self).grid@.len(),
            (m.to as int) < old(self).grid@.len(),
        ensures
            final(self).wf(),
            final(self).cols == old(self).cols,
            final(self).rows == old(self).rows,
            final(self).cram == old(self).cram,
            final(self).grid@ == old(self).grid@.update(m.from as int, old(self).current as i8).update(m.to as int, old(self).current as i8),
            final(self).current == 1 - old(self).current,
    {
        self.grid.set(m.from as usize, self.current as i8);
        self.grid.set(m.to as usize, self.current as i8);
        self.current = 1 - self.current;
    }
}

/// Text of a move: `from-to`.
pub open spec fn move_text(m: DomMove) -> Seq<char> {
    join_nums(seq![m.from as int, m.to as int], '-')
}

pub open spec fn moves_text(ms: Seq<DomMove>) -> Seq<char>
    decreases ms.len(),
{
    if ms.len() == 0 {
        seq![]
    } else if ms.len() == 1 {
        move_text(ms[0])
    } else {
        moves_text(ms.drop_last()) + seq![','] + move_text(ms.last())
    }
}

/// The move named by `cs`: two numbers split at the `-`, each read as a `u16`.
pub open spec fn parse_move_spec(cs: Seq<char>) -> Option<DomMove> {
    match parse_list(cs, '-', 65535) {
        Some(v) => if v.len() == 2 {
            Some(DomMove { from: v[0] as u16, to: v[1] as u16 })
        } else {
            None
        },
        None => None,
    }
}

impl DomMove {
    pub fn encode(&self) -> (s: String)
        ensures
            s@ == move_text(*self),
    {
        let v: Vec<u16> = vec![self.from, self.to];
        let mut s = String::new();
        push_joined(&mut s, &v, '-');
        assert(u16s(v@) =~= seq![self.from as int, self.to as int]);
        s
    }
}

/// Read a move `from-to`.
pub fn parse_dom_move(mov: &str) -> (r: Option<DomMove>)
    ensures
        r == parse_move_spec(mov@),
{
    let cs = chars_of(mov);
    match parse_u16_list(&cs, '-') {
        Some(p) => if p.len() == 2 {
            assert(u16s(p@)[0] == p@[0] as int && u16s(p@)[1] == p@[1] as int);
            Some(DomMove { from: p[0], to: p[1] })
        } else {
            None
        },
        None => None,
    }
}

/// The text of a move reads back as that move.
pub proof fn lemma_move_text_round_trip(m: DomMove)
    ensures
        parse_move_spec(move_text(m)) == Some(m),
{
    lemma_parse_list_join(seq![m.from as int, m.to as int], '-', 65535);
}

/// Cell character: `X` first player, `O` second player, ` ` empty.
pub open spec fn cell_char(v: i8) -> char {
    if v == 0 {
        'X'
    } else if v == 1 {
        'O'
    } else {
        ' '
    }
}

impl Domineering {
    pub open spec fn board_text(&self) -> Seq<char> {
        Seq::new(self.grid@.len(), |i: int| cell_char(self.grid@[i]))
    }

    pub fn board_string(&self) -> (s: String)
        ensures
            s@ == self.board_text(),
    {
        let mut s = String::new();
        let mut i: usize = 0;
        while i < self.grid.len()
            invariant
                i <= self.grid@.len(),
                s@ == Seq::new(i as nat, |j: int| cell_char(self.grid@[j])),
            decreases self.grid@.len() - i,
        {
            let v = self.grid[i];
            push_char(&mut s, if v == 0 { 'X' } else if v == 1 { 'O' } else { ' ' });
            assert(s@ =~= Seq::new((i + 1) as nat, |j: int| cell_char(self.grid@[j])));
            i += 1;
        }
        s
    }

    /// The winner counted from 1 once the side to move is stuck; empty while running.
    pub open spec fn result_text(&self) -> Seq<char> {
        match self.term_spec() {
            Some(Outcome::Loss) => dec((1 - self.current + 1) as nat),
            _ => seq![],
        }
    }

    pub fn result_string(&self) -> (s: String)
        requires
            self.wf(),
        ensures
            s@ == self.result_text(),
    {
        let mut s = String::new();
        match self.term() {
            Some(Outcome::Loss) => push_dec(&mut s, (1 - self.current) as u64 + 1),
            _ => {},
        }
        s
    }

    pub fn legal_moves_string(&self) -> (s: String)
        requires
            self.wf(),
        ensures
            s@ == moves_text(self.moves_spec()),
    {
        let moves = self.gen();
        let mut s = String::new();
        let mut i: usize = 0;
        while i < moves.len()
            invariant
                i <= moves@.len(),
                s@ == moves_text(moves@.take(i as int)),
            decreases moves@.len() - i,
        {
            if i > 0 {
                push_char(&mut s, ',');
            }
            let t = moves[i].encode();
            push_str(&mut s, t.as_str());
            proof {
                assert(moves@.take(i + 1).drop_last() =~= moves@.take(i as int));
            }
            i += 1;
        }
        assert(moves@.take(moves@.len() as int) =~= moves@);
        s
    }

    /// A legal placement lies on the board.
    proof fn lemma_upto_on_board(&self, n: int, m: DomMove)
        requires
            self.wf(),
            0 <= n <= self.grid@.len(),
            self.moves_upto(n).contains(m),
        ensures
            (m.from as int) < self.grid@.len(),
            (m.to as int) < self.grid@.len(),
        decreases n,
    {
        if n > 0 {
            let a = self.moves_upto(n - 1);
            if a.contains(m) {
                self.lemma_upto_on_board(n - 1, m);
            } else {
                let i = n - 1;
                let b = self.cell_moves(i);
                let k = choose|k: int| 0 <= k < (a + b).len() && (a + b)[k] == m;
                assert(b[k - a.len()] == m);
                let (r, c) = (i / self.cols as int, i % self.cols as int);
                assert(self.cols >= 1) by (nonlinear_arith)
                    requires
                        0 <= i < self.cols * self.rows,
                        self.rows >= 0,
                ;
                assert(r * self.cols + c == i) by (nonlinear_arith)
                    requires
                        self.cols >= 1,
                        r == i / self.cols as int,
                        c == i % self.cols as int,
                ;
                assert(r + 1 < self.rows ==> i + self.cols < self.cols * self.rows) by (nonlinear_arith)
                    requires
                        r * self.cols + c == i,
                        0 <= c < self.cols,
                ;
                assert(r < self.rows) by (nonlinear_arith)
                    requires
                        r * self.cols + c == i,
                        0 <= c,
                        i < self.cols * self.rows,
                        self.cols >= 1,
                ;
                assert((r + 1) * self.cols <= self.cols * self.rows) by (nonlinear_arith)
                    requires
                        r < self.rows,
                        self.cols >= 1,
                ;
                assert((r + 1) * self.cols == r * self.cols + self.cols) by (nonlinear_arith);
            }
        }
    }

    /// Read `mov` and place it if legal; false, leaving the game unchanged, otherwise.
    pub fn apply_text(&mut self, mov: &str) -> (ok: bool)
        requires
            old(self).wf(),
        ensures
            final(self).wf(),
            ok == (parse_move_spec(mov@) matches Some(m) && old(self).moves_spec().contains(m)),
            !ok ==> *final(self) == *old(self),
            ok ==> ({
                let m = parse_move_spec(mov@)->0;
                &&& final(self).grid@ == old(self).grid@.update(m.from as int, old(self).current as i8).update(m.to as int, old(self).current as i8)
                &&& final(self).current == 1 - old(self).current
            }),
            ok ==> final(self).cols == old(self).cols && final(self).rows == old(self).rows,
            ok ==> final(self).cram == old(self).cram,
    {
        let m = match parse_dom_move(mov) {
            Some(m) => m,
            None => {
                return false;
            },
        };
        let moves = self.gen();
        let mut found = false;
        let mut i: usize = 0;
        while i < moves.len()
            invariant
                i <= moves@.len(),
                found == exists|j: int| 0 <= j < i && moves@[j] == m,
            decreases moves@.len() - i,
        {
            if moves[i] == m {
                found = true;
            }
            i += 1;
        }
        if !found {
            return false;
        }
        proof {
            self.lemma_upto_on_board(self.grid@.len() as int, m);
        }
        self.make_move(&m);
        true
    }
}


impl Domineering {
    proof fn lemma_moves_upto_has(&self, n: int, i: int, m: DomMove)
        requires
            0 <= i < n,
            self.cell_moves(i).contains(m),
        ensures
            self.moves_upto(n).contains(m),
        decreases n,
    {
        let prev = self.moves_upto(n - 1);
        let last = self.cell_moves(n - 1);
        if i < n - 1 {
            self.lemma_moves_upto_has(n - 1, i, m);
            let x = choose|x: int| 0 <= x < prev.len() && prev[x] == m;
            assert((prev + last)[x] == m);
        } else {
            let x = choose|x: int| 0 <= x < last.len() && last[x] == m;
            assert((prev + last)[prev.len() + x] == m);
        }
    }

    /// Placements are complete: two empty cells, one below the other for the vertical
    /// player and side by side for the horizontal one (either way in Cram), form a
    /// domino the side to move may place, and it is generated.
    pub proof fn lemma_every_domino_generated(&self, r: int, c: int, vertical: bool)
        requires
            self.wf(),
            0 <= r < self.rows,
            0 <= c < self.cols,
            if vertical { self.cram || self.current == 0 } else { self.cram || self.current == 1 },
            if vertical { r + 1 < self.rows } else { c + 1 < self.cols },
            self.grid@[r * self.cols + c] == -1,
            self.grid@[if vertical { (r + 1) * self.cols + c } else { r * self.cols + c + 1 }] == -1,
        ensures
            self.moves_spec().contains(
                DomMove {
                    from: (r * self.cols + c) as u16,
                    to: (if vertical { (r + 1) * self.cols + c } else { r * self.cols + c + 1 }) as u16,
                },
            ),
    {
        let (cols, rows) = (self.cols as int, self.rows as int);
        let i = r * cols + c;
        crate::gridlib::lemma_cell_index(rows, cols, r, c);
        vstd::arithmetic::div_mod::lemma_fundamental_div_mod_converse(i, cols, r, c);
        assert((r + 1) * cols + c == i + cols) by (nonlinear_arith)
            requires
                i == r * cols + c,
        ;
        let v = if self.vertical_ok() && r + 1 < rows && self.grid@[i + cols] == -1 {
            seq![DomMove { from: i as u16, to: (i + cols) as u16 }]
        } else {
            seq![]
        };
        let h = if self.horizontal_ok() && c + 1 < cols && self.grid@[i + 1] == -1 {
            seq![DomMove { from: i as u16, to: (i + 1) as u16 }]
        } else {
            seq![]
        };
        assert(self.cell_moves(i) == v + h);
        let m = DomMove { from: i as u16, to: (if vertical { i + cols } else { i + 1 }) as u16 };
        if vertical {
            assert((v + h)[0] == m);
        } else {
            assert((v + h)[v.len() as int] == m);
        }
        self.lemma_moves_upto_has(self.grid@.len() as int, i, m);
    }
}

} // verus!
