//! Dots and Boxes: players draw edges of a grid of boxes in turn; drawing the fourth
//! edge of a box claims it and earns another turn. When every edge is drawn, more boxes
//! wins.
use vstd::prelude::*;
use crate::outcome::Outcome;
use crate::text::{push_char, push_dec, push_all, push_joined, join_nums, u16s, dec, parse_uint, parse_uint_range, chars_of};

verus! {

#[derive(Clone, Debug)]
pub struct DotsBoxes {
    /// Boxes wide.
    pub cols: usize,
    /// Boxes tall.
    pub rows: usize,
    /// Horizontal edges row by row, then vertical edges row by row.
    pub edges: Vec<bool>,
    /// Box owners, row by row; -1 for none.
    pub owner: Vec<i8>,
    pub current: u8,
    /// Index where the vertical edges begin.
    pub hoff: usize,
}

/// Number of boxes among the first `k` owned by `p`.
pub open spec fn owned_upto(owner: Seq<i8>, p: i8, k: int) -> int
    decreases k,
{
    if k <= 0 {
        0
    } else {
        owned_upto(owner, p, k - 1) + if owner[k - 1] == p { 1int } else { 0int }
    }
}

proof fn lemma_owned_bound(owner: Seq<i8>, p: i8, k: int)
    ensures
        0 <= owned_upto(owner, p, k) <= if k < 0 { 0 } else { k },
    decreases k,
{
    if k > 0 {
        lemma_owned_bound(owner, p, k - 1);
    }
}

impl DotsBoxes {
    pub open spec fn wf(&self) -> bool {
        &&& self.cols <= 256
        &&& self.rows <= 256
        &&& self.hoff == (self.rows + 1) * self.cols
        &&& self.edges@.len() == self.hoff + self.rows * (self.cols + 1)
        &&& self.edges@.len() <= 65536
        &&& self.owner@.len() == self.cols * self.rows
        &&& self.owner@.len() <= 65536
        &&& self.current <= 1
        &&& forall|i: int| 0 <= i < self.owner@.len() ==> -1 <= #[trigger] self.owner@[i] <= 1
    }

    /// Index of the horizontal edge above box `(r, c)`.
    pub open spec fn h_spec(&self, r: int, c: int) -> int {
        r * self.cols + c
    }

    /// Index of the vertical edge left of box `(r, c)`.
    pub open spec fn v_spec(&self, r: int, c: int) -> int {
        self.hoff + r * (self.cols + 1) + c
    }

    /// All four edges of box `(r, c)` are drawn in `edges`.
    pub open spec fn complete_in(&self, edges: Seq<bool>, r: int, c: int) -> bool {
        edges[self.h_spec(r, c)] && edges[self.h_spec(r + 1, c)] && edges[self.v_spec(r, c)] && edges[self.v_spec(r, c + 1)]
    }

    /// The boxes beside `edge`: above and below a horizontal edge, left and right of a
    /// vertical one, where they exist.
    pub open spec fn adj_spec(&self, edge: int) -> Seq<(int, int)> {
        if edge < self.hoff {
            let (r, c) = (edge / self.cols as int, edge % self.cols as int);
            (if r > 0 { seq![(r - 1, c)] } else { seq![] }) + (if r < self.rows { seq![(r, c)] } else { seq![] })
        } else {
            let e = edge - self.hoff;
            let (r, c) = (e / (self.cols + 1), e % (self.cols + 1));
            (if c > 0 { seq![(r, c - 1)] } else { seq![] }) + (if c < self.cols { seq![(r, c)] } else { seq![] })
        }
    }

    pub open spec fn score_spec(&self, p: i8) -> int {
        owned_upto(self.owner@, p, self.owner@.len() as int)
    }

    /// Every edge is drawn.
    pub open spec fn full(&self) -> bool {
        forall|i: int| 0 <= i < self.edges@.len() ==> #[trigger] self.edges@[i]
    }

    /// Value for the player to move once every edge is drawn: more boxes wins.
    pub open spec fn term_spec(&self) -> Option<Outcome> {
        if !self.full() {
            None
        } else {
            let (me, you) = (self.score_spec(self.current as i8), self.score_spec((1 - self.current) as i8));
            Some(
                if me > you {
                    Outcome::Win
                } else if me < you {
                    Outcome::Loss
                } else {
                    Outcome::Draw
                },
            )
        }
    }

    /// Undrawn edges among the first `k`.
    pub open spec fn moves_upto(&self, k: int) -> Seq<u16>
        decreases k,
    {
        if k <= 0 {
            seq![]
        } else {
            self.moves_upto(k - 1) + if !self.edges@[k - 1] { seq![(k - 1) as u16] } else { seq![] }
        }
    }

    /// The undrawn edges, none once the game is over.
    pub open spec fn moves_spec(&self) -> Seq<u16> {
        if self.term_spec() is Some {
            seq![]
        } else {
            self.moves_upto(self.edges@.len() as int)
        }
    }

    /// Who owns box `b` after drawing `edge`: the player to move takes each unowned box
    /// beside it that the edge completes.
    pub open spec fn owner_after(&self, edge: int, b: int) -> i8 {
        let es = self.edges@.update(edge, true);
        if self.owner@[b] < 0 && exists|k: int|
            0 <= k < self.adj_spec(edge).len() && #[trigger] self.adj_spec(edge)[k].0 * self.cols + self.adj_spec(edge)[k].1 == b
                && self.complete_in(es, self.adj_spec(edge)[k].0, self.adj_spec(edge)[k].1) {
            self.current as i8
        } else {
            self.owner@[b]
        }
    }

    /// Drawing `edge` completes an unowned box beside it.
    /// `next` is this game after drawing `edge`: the edge is set, each box it closes
    /// goes to the mover, and the mover plays again after closing one.
    pub open spec fn moved(&self, next: Self, edge: int) -> bool {
        &&& next.wf()
        &&& next.cols == self.cols
        &&& next.rows == self.rows
        &&& next.hoff == self.hoff
        &&& next.edges@ == self.edges@.update(edge, true)
        &&& next.owner@.len() == self.owner@.len()
        &&& forall|b: int| 0 <= b < next.owner@.len() ==> #[trigger] next.owner@[b] == self.owner_after(edge, b)
        &&& next.current == if self.completes(edge) { self.current } else { (1 - self.current) as u8 }
    }

    pub open spec fn completes(&self, edge: int) -> bool {
        exists|k: int|
            0 <= k < self.adj_spec(edge).len() && self.owner@[#[trigger] self.adj_spec(edge)[k].0 * self.cols + self.adj_spec(edge)[k].1] < 0
                && self.complete_in(self.edges@.update(edge, true), self.adj_spec(edge)[k].0, self.adj_spec(edge)[k].1)
    }
}

/// Facts about box and edge indices.
proof fn lemma_box_indices(cols: int, rows: int, r: int, c: int)
    requires
        0 <= r < rows,
        0 <= c < cols,
    ensures
        0 <= r * cols + c < cols * rows,
        (r + 1) * cols + c < (rows + 1) * cols,
        r * (cols + 1) + c + 1 < rows * (cols + 1),
        0 <= r * (cols + 1) + c,
{
    assert(0 <= r * cols + c < cols * rows) by (nonlinear_arith)
        requires
            0 <= r < rows,
            0 <= c < cols,
    ;
    assert((r + 1) * cols + c < (rows + 1) * cols) by (nonlinear_arith)
        requires
            0 <= r < rows,
            0 <= c < cols,
    ;
    assert(r * (cols + 1) + c + 1 < rows * (cols + 1)) by (nonlinear_arith)
        requires
            0 <= r < rows,
            0 <= c < cols,
    ;
    assert(0 <= r * (cols + 1) + c) by (nonlinear_arith)
        requires
            0 <= r < rows,
            0 <= c < cols,
    ;
}

impl DotsBoxes {
    pub fn new(cols: usize, rows: usize) -> (g: Self)
        requires
            cols <= 128,
            rows <= 128,
        ensures
            g.wf(),
            g.cols == cols,
            g.rows == rows,
            forall|i: int| 0 <= i < g.edges@.len() ==> !#[trigger] g.edges@[i],
            forall|i: int| 0 <= i < g.owner@.len() ==> #[trigger] g.owner@[i] == -1,
            g.current == 0,
    {
        assert((rows + 1) * cols + rows * (cols + 1) <= 129 * 128 + 128 * 129) by (nonlinear_arith)
            requires
                cols <= 128,
                rows <= 128,
        ;
        assert(cols * rows <= 128 * 128) by (nonlinear_arith)
            requires
                cols <= 128,
                rows <= 128,
        ;
        let hoff = (rows + 1) * cols;
        let n_edges = hoff + rows * (cols + 1);
        let mut edges: Vec<bool> = Vec::new();
        let mut i: usize = 0;
        while i < n_edges
            invariant
                i <= n_edges,
                edges@.len() == i,
                forall|j: int| 0 <= j < i ==> !#[trigger] edges@[j],
            decreases n_edges - i,
        {
            edges.push(false);
            i += 1;
        }
        let nb = cols * rows;
        let mut owner: Vec<i8> = Vec::new();
        let mut i: usize = 0;
        while i < nb
            invariant
                i <= nb,
                owner@.len() == i,
                forall|j: int| 0 <= j < i ==> #[trigger] owner@[j] == -1,
            decreases nb - i,
        {
            owner.push(-1);
            i += 1;
        }
        DotsBoxes { cols, rows, edges, owner, current: 0, hoff }
    }

    pub fn h(&self, r: usize, c: usize) -> (i: usize)
        requires
            self.wf(),
            r <= self.rows,
            c < self.cols,
        ensures
            i == self.h_spec(r as int, c as int),
            i < self.hoff,
    {
        assert(r * self.cols + c < (self.rows + 1) * self.cols) by (nonlinear_arith)
            requires
                r <= self.rows,
                c < self.cols,
        ;
        r * self.cols + c
    }

    pub fn v(&self, r: usize, c: usize) -> (i: usize)
        requires
            self.wf(),
            r < self.rows,
            c <= self.cols,
        ensures
            i == self.v_spec(r as int, c as int),
            i < self.edges@.len(),
    {
        assert(r * (self.cols + 1) + c < self.rows * (self.cols + 1)) by (nonlinear_arith)
            requires
                r < self.rows,
                c <= self.cols,
        ;
        self.hoff + r * (self.cols + 1) + c
    }

    pub fn box_complete(&self, r: usize, c: usize) -> (b: bool)
        requires
            self.wf(),
            r < self.rows,
            c < self.cols,
        ensures
            b == self.complete_in(self.edges@, r as int, c as int),
    {
        self.edges[self.h(r, c)] && self.edges[self.h(r + 1, c)] && self.edges[self.v(r, c)] && self.edges[self.v(r, c + 1)]
    }

    /// The boxes beside `edge`.
    pub fn adjacent_boxes(&self, edge: usize) -> (v: Vec<(usize, usize)>)
        requires
            self.wf(),
            edge < self.edges@.len(),
        ensures
            v@.len() == self.adj_spec(edge as int).len(),
            forall|k: int| 0 <= k < v@.len() ==> (#[trigger] v@[k]).0 as int == self.adj_spec(edge as int)[k].0 && v@[k].1 as int
                == self.adj_spec(edge as int)[k].1,
            forall|k: int| 0 <= k < v@.len() ==> (#[trigger] v@[k]).0 < self.rows && v@[k].1 < self.cols,
    {
        let mut v: Vec<(usize, usize)> = Vec::new();
        if edge < self.hoff {
            let r = edge / self.cols;
            let c = edge % self.cols;
            assert(r <= self.rows) by (nonlinear_arith)
                requires
                    edge < (self.rows + 1) * self.cols,
                    r == edge / self.cols,
                    self.cols >= 1,
            ;
            if r > 0 {
                v.push((r - 1, c));
            }
            if r < self.rows {
                v.push((r, c));
            }
        } else {
            let e = edge - self.hoff;
            let r = e / (self.cols + 1);
            let c = e % (self.cols + 1);
            assert(r < self.rows) by (nonlinear_arith)
                requires
                    e < self.rows * (self.cols + 1),
                    r == e as int / (self.cols + 1),
            ;
            if c > 0 {
                v.push((r, c - 1));
            }
            if c < self.cols {
                v.push((r, c));
            }
        }
        v
    }

    /// Boxes owned by `p`.
    pub fn score(&self, p: i8) -> (n: i64)
        requires
            self.wf(),
        ensures
            n == self.score_spec(p),
    {
        let mut n: i64 = 0;
        let mut i: usize = 0;
        while i < self.owner.len()
            invariant
                self.wf(),
                i <= self.owner@.len(),
                n == owned_upto(self.owner@, p, i as int),
                n <= i,
            decreases self.owner@.len() - i,
        {
            proof {
                lemma_owned_bound(self.owner@, p, i as int);
            }
            if self.owner[i] == p {
                n += 1;
            }
            i += 1;
        }
        n
    }

    pub fn term(&self) -> (t: Option<Outcome>)
        requires
            self.wf(),
        ensures
            t == self.term_spec(),
    {
        let mut i: usize = 0;
        while i < self.edges.len()
            invariant
                i <= self.edges@.len(),
                forall|j: int| 0 <= j < i ==> #[trigger] self.edges@[j],
            decreases self.edges@.len() - i,
        {
            if !self.edges[i] {
                return None;
            }
            i += 1;
        }
        let me = self.score(self.current as i8);
        let you = self.score(1 - self.current as i8);
        Some(
            if me > you {
                Outcome::Win
            } else if me < you {
                Outcome::Loss
            } else {
                Outcome::Draw
            },
        )
    }

    pub fn available_moves(&self) -> (v: Vec<u16>)
        requires
            self.wf(),
        ensures
            v@ == self.moves_spec(),
    {
        let mut v: Vec<u16> = Vec::new();
        if self.term().is_some() {
            return v;
        }
        let mut i: usize = 0;
        while i < self.edges.len()
            invariant
                self.wf(),
                i <= self.edges@.len(),
                v@ == self.moves_upto(i as int),
            decreases self.edges@.len() - i,
        {
            if !self.edges[i] {
                v.push(i as u16);
            }
            i += 1;
        }
        v
    }

    pub fn current_player(&self) -> (p: u8)
        ensures
            p == self.current,
    {
        self.current
    }
}

impl DotsBoxes {
    /// The boxes beside an edge are distinct boxes of the board.
    proof fn lemma_adj_distinct(&self, edge: int)
        requires
            self.wf(),
            0 <= edge < self.edges@.len(),
        ensures
            forall|k: int| 0 <= k < self.adj_spec(edge).len() ==> 0 <= #[trigger] self.adj_spec(edge)[k].0 < self.rows && 0 <= self.adj_spec(edge)[k].1 < self.cols,
            forall|k1: int, k2: int| 0 <= k1 < k2 < self.adj_spec(edge).len() ==> #[trigger] self.adj_spec(edge)[k1].0 * self.cols + self.adj_spec(edge)[k1].1
                != #[trigger] self.adj_spec(edge)[k2].0 * self.cols + self.adj_spec(edge)[k2].1,
    {
        let a = self.adj_spec(edge);
        if edge < self.hoff {
            let (r, c) = (edge / self.cols as int, edge % self.cols as int);
            assert(self.cols >= 1) by (nonlinear_arith)
                requires
                    0 <= edge < (self.rows + 1) * self.cols,
                    self.rows >= 0,
            ;
            assert(r <= self.rows) by (nonlinear_arith)
                requires
                    edge < (self.rows + 1) * self.cols,
                    r == edge / self.cols as int,
                    self.cols >= 1,
                    edge >= 0,
            ;
            assert((r - 1) * self.cols + c != r * self.cols + c) by (nonlinear_arith)
                requires
                    self.cols >= 1,
            ;
        } else {
            let e = edge - self.hoff;
            assert(e / (self.cols + 1) < self.rows) by (nonlinear_arith)
                requires
                    0 <= e < self.rows * (self.cols + 1),
            ;
        }
    }

    /// Draw `edge`. Each unowned box beside it that this completes goes to the player
    /// to move, who then moves again; otherwise the turn passes.
    pub fn make_move(&mut self, m: &u16)
        requires
            old(self).wf(),
            (*m as int) < old(self).edges@.len(),
        ensures
            final(self).wf(),
            final(self).cols == old(self).cols,
            final(self).rows == old(self).rows,
            final(self).hoff == old(self).hoff,
            final(self).edges@ == old(self).edges@.update(*m as int, true),
            forall|b: int| 0 <= b < final(self).owner@.len() ==> #[trigger] final(self).owner@[b] == old(self).owner_after(*m as int, b),
            final(self).owner@.len() == old(self).owner@.len(),
            final(self).current == if old(self).completes(*m as int) { old(self).current } else { (1 - old(self).current) as u8 },
    {
        let ghost g0 = *self;
        let edge = *m as usize;
        let boxes = self.adjacent_boxes(edge);
        proof {
            g0.lemma_adj_distinct(edge as int);
        }
        self.edges.set(edge, true);
        let ghost es = self.edges@;
        let mut completed = false;
        let mut k: usize = 0;
        while k < boxes.len()
            invariant
                g0.wf(),
                self.cols == g0.cols,
                self.rows == g0.rows,
                self.hoff == g0.hoff,
                self.current == g0.current,
                self.edges@ == es,
                es == g0.edges@.update(edge as int, true),
                edge < g0.edges@.len(),
                self.owner@.len() == g0.owner@.len(),
                boxes@.len() == g0.adj_spec(edge as int).len(),
                forall|q: int| 0 <= q < boxes@.len() ==> (#[trigger] boxes@[q]).0 as int == g0.adj_spec(edge as int)[q].0 && boxes@[q].1 as int
                    == g0.adj_spec(edge as int)[q].1,
                forall|q: int| 0 <= q < boxes@.len() ==> (#[trigger] boxes@[q]).0 < g0.rows && boxes@[q].1 < g0.cols,
                forall|k1: int, k2: int| 0 <= k1 < k2 < g0.adj_spec(edge as int).len() ==> #[trigger] g0.adj_spec(edge as int)[k1].0 * g0.cols + g0.adj_spec(edge as int)[k1].1
                    != #[trigger] g0.adj_spec(edge as int)[k2].0 * g0.cols + g0.adj_spec(edge as int)[k2].1,
                k <= boxes@.len(),
                forall|b: int| 0 <= b < self.owner@.len() ==> #[trigger] self.owner@[b] == if g0.owner@[b] < 0 && exists|q: int|
                    0 <= q < k && #[trigger] g0.adj_spec(edge as int)[q].0 * g0.cols + g0.adj_spec(edge as int)[q].1 == b && g0.complete_in(
                        es,
                        g0.adj_spec(edge as int)[q].0,
                        g0.adj_spec(edge as int)[q].1,
                    ) {
                    g0.current as i8
                } else {
                    g0.owner@[b]
                },
                completed == exists|q: int|
                    0 <= q < k && g0.owner@[#[trigger] g0.adj_spec(edge as int)[q].0 * g0.cols + g0.adj_spec(edge as int)[q].1] < 0 && g0.complete_in(
                        es,
                        g0.adj_spec(edge as int)[q].0,
                        g0.adj_spec(edge as int)[q].1,
                    ),
            decreases boxes@.len() - k,
        {
            let (r, c) = boxes[k];
            proof {
                lemma_box_indices(g0.cols as int, g0.rows as int, r as int, c as int);
            }
            let b = r * self.cols + c;
            proof {
                // The owner of this box is still the original one: earlier boxes differ.
                assert forall|q: int| 0 <= q < k implies #[trigger] g0.adj_spec(edge as int)[q].0 * g0.cols + g0.adj_spec(edge as int)[q].1 != b by {
                    assert(g0.adj_spec(edge as int)[q].0 * g0.cols + g0.adj_spec(edge as int)[q].1 != g0.adj_spec(edge as int)[k as int].0 * g0.cols
                        + g0.adj_spec(edge as int)[k as int].1);
                }
                assert(self.owner@[b as int] == g0.owner@[b as int]);
            }
            if self.owner[b] < 0 && self.box_complete(r, c) {
                self.owner.set(b, self.current as i8);
                completed = true;
            }
            k += 1;
        }
        if !completed {
            self.current = 1 - self.current;
        }
    }
}

/// A claimed box keeps its owner.
pub proof fn lemma_owner_permanent(g: DotsBoxes, edge: int, b: int)
    requires
        g.wf(),
        0 <= b < g.owner@.len(),
        g.owner@[b] >= 0,
    ensures
        g.owner_after(edge, b) == g.owner@[b],
{
}

pub open spec fn edge_char(e: bool) -> char {
    if e {
        '1'
    } else {
        '0'
    }
}

pub open spec fn box_char(o: i8) -> char {
    if o == 0 {
        '0'
    } else if o == 1 {
        '1'
    } else {
        '.'
    }
}

impl DotsBoxes {
    /// The board: edge flags, `|`, box owners, `|`, then `<score 0>,<score 1>`.
    pub open spec fn board_text(&self) -> Seq<char> {
        Seq::new(self.edges@.len(), |i: int| edge_char(self.edges@[i])) + seq!['|'] + Seq::new(
            self.owner@.len(),
            |i: int| box_char(self.owner@[i]),
        ) + seq!['|'] + dec(self.score_spec(0) as nat) + seq![','] + dec(self.score_spec(1) as nat)
    }

    pub fn board_string(&self) -> (s: String)
        requires
            self.wf(),
        ensures
            s@ == self.board_text(),
    {
        let mut s = String::new();
        let mut i: usize = 0;
        while i < self.edges.len()
            invariant
                i <= self.edges@.len(),
                s@ == Seq::new(i as nat, |j: int| edge_char(self.edges@[j])),
            decreases self.edges@.len() - i,
        {
            push_char(&mut s, if self.edges[i] { '1' } else { '0' });
            assert(s@ =~= Seq::new((i + 1) as nat, |j: int| edge_char(self.edges@[j])));
            i += 1;
        }
        push_char(&mut s, '|');
        let ghost head = s@;
        let mut i: usize = 0;
        while i < self.owner.len()
            invariant
                i <= self.owner@.len(),
                s@ == head + Seq::new(i as nat, |j: int| box_char(self.owner@[j])),
            decreases self.owner@.len() - i,
        {
            let o = self.owner[i];
            push_char(&mut s, if o == 0 { '0' } else if o == 1 { '1' } else { '.' });
            assert(s@ =~= head + Seq::new((i + 1) as nat, |j: int| box_char(self.owner@[j])));
            i += 1;
        }
        push_char(&mut s, '|');
        proof {
            lemma_owned_bound(self.owner@, 0, self.owner@.len() as int);
            lemma_owned_bound(self.owner@, 1, self.owner@.len() as int);
        }
        push_dec(&mut s, self.score(0) as u64);
        push_char(&mut s, ',');
        push_dec(&mut s, self.score(1) as u64);
        assert(s@ =~= self.board_text());
        s
    }

    /// The result: the winning seat counted from 1, `Draw`, or empty while running.
    pub open spec fn result_text(&self) -> Seq<char> {
        match self.term_spec() {
            Some(Outcome::Win) => dec((self.current + 1) as nat),
            Some(Outcome::Loss) => dec((1 - self.current + 1) as nat),
            Some(Outcome::Draw) => seq!['D', 'r', 'a', 'w'],
            None => seq![],
        }
    }

    pub fn result_string(&self) -> (s: String)
        requires
            self.wf(),
        ensures
            s@ == self.result_text(),
    {
        let mut s = String::new();
        match self.term() {
            Some(Outcome::Win) => push_dec(&mut s, self.current as u64 + 1),
            Some(Outcome::Loss) => push_dec(&mut s, (1 - self.current) as u64 + 1),
            Some(Outcome::Draw) => push_all(&mut s, &['D', 'r', 'a', 'w']),
            None => {},
        }
        s
    }

    pub fn legal_moves_string(&self) -> (s: String)
        requires
            self.wf(),
        ensures
            s@ == join_nums(u16s(self.moves_spec()), ','),
    {
        let moves = self.available_moves();
        let mut s = String::new();
        push_joined(&mut s, &moves, ',');
        assert(s@ =~= join_nums(u16s(self.moves_spec()), ','));
        s
    }

    /// Read an edge number and draw it if legal; false, leaving the game unchanged,
    /// otherwise.
    pub fn apply_text(&mut self, mov: &str) -> (ok: bool)
        requires
            old(self).wf(),
        ensures
            final(self).wf(),
            ok == (parse_uint(mov@, 65535) matches Some(v) && v < old(self).edges@.len() && old(self).moves_spec().contains(v as u16)),
            !ok ==> *final(self) == *old(self),
            ok ==> old(self).moved(*final(self), parse_uint(mov@, 65535)->0),
    {
        let cs = chars_of(mov);
        proof {
            assert(cs@.subrange(0, cs@.len() as int) =~= mov@);
        }
        let v = match parse_uint_range(&cs, 0, cs.len(), 65535) {
            Some(v) => v,
            None => {
                return false;
            },
        };
        if v >= self.edges.len() as u64 {
            return false;
        }
        let m = v as u16;
        let moves = self.available_moves();
        let mut found = false;
        let mut i: usize = 0;
        while i < moves.len()
            invariant
                i <= moves@.len(),
                found == exists|j: int| 0 <= j < i && moves@[j] == m,
            decreases moves@.len() - i,
        {
            if moves[i] == m {
                found = true;
            }
            i += 1;
        }
        if !found {
            return false;
        }
        self.make_move(&m);
        true
    }
}

} // verus!
