//! Game of the Amazons: each turn an amazon moves like a chess queen over empty
//! squares, then shoots an arrow, again like a queen, from where it landed; the arrow's
//! square burns for the rest of the game. A player who cannot move loses.
use vstd::prelude::*;
use crate::outcome::Outcome;
use crate::text::{push_char, push_str, join_nums, u16s, parse_list, parse_u16_list, chars_of, push_joined, lemma_parse_list_join};

verus! {

pub const ARROW: i8 = 2;

/// The eight queen directions.
pub open spec fn qdir(k: int) -> (int, int) {
    if k == 0 {
        (-1, -1)
    } else if k == 1 {
        (-1, 0)
    } else if k == 2 {
        (-1, 1)
    } else if k == 3 {
        (0, -1)
    } else if k == 4 {
        (0, 1)
    } else if k == 5 {
        (1, -1)
    } else if k == 6 {
        (1, 0)
    } else {
        (1, 1)
    }
}

fn qdir_exec(k: usize) -> (d: (isize, isize))
    requires
        k < 8,
    ensures
        d.0 == qdir(k as int).0,
        d.1 == qdir(k as int).1,
{
    match k {
        0 => (-1, -1),
        1 => (-1, 0),
        2 => (-1, 1),
        3 => (0, -1),
        4 => (0, 1),
        5 => (1, -1),
        6 => (1, 0),
        _ => (1, 1),
    }
}

#[derive(Clone, Copy, Debug, PartialEq, Eq, Structural)]
pub struct AzMove {
    pub from: u16,
    pub to: u16,
    pub arrow: u16,
}

#[derive(Clone, Debug)]
pub struct Amazons {
    pub cols: usize,
    pub rows: usize,
    /// -1 empty, 0 or 1 an amazon, 2 a burnt square.
    pub grid: Vec<i8>,
    pub current: u8,
}

/// The squares a queen line from `(r, c)` in direction `(dr, dc)` passes over, from
/// distance `d` on: in bounds and empty (or the square `ignore`, treated as empty).
pub open spec fn ray_spec(g: Seq<i8>, cols: int, rows: int, r: int, c: int, dr: int, dc: int, ignore: int, d: int) -> Seq<int>
    decreases rows + cols + 1 - d,
{
    let (nr, nc) = (r + d * dr, c + d * dc);
    if d < 1 || d > rows + cols || !(0 <= nr < rows && 0 <= nc < cols) || !(g[nr * cols + nc] == -1 || nr * cols + nc == ignore) {
        seq![]
    } else {
        seq![nr * cols + nc] + ray_spec(g, cols, rows, r, c, dr, dc, ignore, d + 1)
    }
}

impl Amazons {
    pub open spec fn wf(&self) -> bool {
        &&& 1 <= self.cols
        &&& 1 <= self.rows
        &&& self.grid@.len() == self.cols * self.rows
        &&& self.grid@.len() <= 65536
        &&& self.current <= 1
    }

    /// The line of squares from `cell` in direction `k`.
    pub open spec fn ray_of(&self, cell: int, k: int, ignore: int) -> Seq<int> {
        ray_spec(self.grid@, self.cols as int, self.rows as int, cell / self.cols as int, cell % self.cols as int, qdir(k).0, qdir(k).1, ignore, 1)
    }

    /// Moves of the amazon at `from` landing on `to`, with arrows along the first `k`
    /// directions from `to` (the vacated `from` counts as empty).
    pub open spec fn arrow_moves(&self, from: int, to: int, k: int) -> Seq<AzMove>
        decreases k,
    {
        if k <= 0 {
            seq![]
        } else {
            self.arrow_moves(from, to, k - 1) + self.ray_of(to, k - 1, from).map_values(
                |a: int| AzMove { from: from as u16, to: to as u16, arrow: a as u16 },
            )
        }
    }

    /// Moves of the amazon at `from` landing on the first `j` squares of `tos`.
    pub open spec fn landing_moves(&self, from: int, tos: Seq<int>, j: int) -> Seq<AzMove>
        decreases j,
    {
        if j <= 0 {
            seq![]
        } else {
            self.landing_moves(from, tos, j - 1) + self.arrow_moves(from, tos[j - 1], 8)
        }
    }

    /// Moves of the amazon at `from` along its first `k` directions.
    pub open spec fn from_moves(&self, from: int, k: int) -> Seq<AzMove>
        decreases k,
    {
        if k <= 0 {
            seq![]
        } else {
            let tos = self.ray_of(from, k - 1, -1);
            self.from_moves(from, k - 1) + self.landing_moves(from, tos, tos.len() as int)
        }
    }

    /// Moves of the amazons on the first `n` squares.
    pub open spec fn moves_upto(&self, n: int) -> Seq<AzMove>
        decreases n,
    {
        if n <= 0 {
            seq![]
        } else {
            self.moves_upto(n - 1) + if self.grid@[n - 1] == self.current as i8 {
                self.from_moves(n - 1, 8)
            } else {
                seq![]
            }
        }
    }

    /// Every move of the side to move: square by square, direction by direction.
    pub open spec fn moves_spec(&self) -> Seq<AzMove> {
        self.moves_upto(self.grid@.len() as int)
    }
}

impl Amazons {
    /// A new board: each side's two amazons on its back row, a third of the way in
    /// from each edge.
    pub fn new(cols: usize, rows: usize) -> (g: Self)
        requires
            cols >= 1,
            rows >= 1,
            cols * rows <= 65536,
        ensures
            g.wf(),
            g.cols == cols,
            g.rows == rows,
            g.current == 0,
            forall|i: int| 0 <= i < cols * rows ==> #[trigger] g.grid@[i] == {
                let c1 = (cols - 1) / 3;
                let c2 = cols - 1 - c1;
                if i == (rows - 1) * cols + c1 || i == (rows - 1) * cols + c2 {
                    1i8
                } else if i == c1 || i == c2 {
                    0i8
                } else {
                    -1i8
                }
            },
    {
        let n = cols * rows;
        let mut grid: Vec<i8> = Vec::new();
        let mut i: usize = 0;
        while i < n
            invariant
                i <= n,
                grid@.len() == i,
                forall|j: int| 0 <= j < i ==> #[trigger] grid@[j] == -1,
            decreases n - i,
        {
            grid.push(-1);
            i += 1;
        }
        let c1 = (cols - 1) / 3;
        let c2 = cols - 1 - c1;
        assert((rows - 1) * cols + c2 < cols * rows) by (nonlinear_arith)
            requires
                rows >= 1,
                c2 < cols,
        ;
        grid.set(c1, 0);
        grid.set(c2, 0);
        grid.set((rows - 1) * cols + c1, 1);
        grid.set((rows - 1) * cols + c2, 1);
        Amazons { cols, rows, grid, current: 0 }
    }

    /// The squares along direction `(dr, dc)` from `(r, c)` up to the first occupied one
    /// (the square `ignore` counts as empty).
    pub fn ray(&self, r: usize, c: usize, dr: isize, dc: isize, ignore: isize) -> (v: Vec<usize>)
        requires
            self.wf(),
            r < self.rows,
            c < self.cols,
            -1 <= dr <= 1,
            -1 <= dc <= 1,
            dr != 0 || dc != 0,
        ensures
            forall|j: int| 0 <= j < v@.len() ==> (#[trigger] v@[j]) < self.grid@.len(),
            v@.map_values(|x: usize| x as int) == ray_spec(self.grid@, self.cols as int, self.rows as int, r as int, c as int, dr as int, dc as int, ignore as int, 1),
    {
        let ghost (g, ci, ri) = (self.grid@, self.cols as int, self.rows as int);
        assert(self.rows <= 65536 && self.cols <= 65536) by (nonlinear_arith)
            requires
                self.rows * self.cols <= 65536,
                self.rows >= 1,
                self.cols >= 1,
        ;
        let mut v: Vec<usize> = Vec::new();
        let mut nr: isize = r as isize + dr;
        let mut nc: isize = c as isize + dc;
        let mut d: usize = 1;
        loop
            invariant
                self.wf(),
                g == self.grid@,
                ci == self.cols,
                ri == self.rows,
                self.rows <= 65536,
                self.cols <= 65536,
                r < self.rows,
                c < self.cols,
                -1 <= dr <= 1,
                -1 <= dc <= 1,
                dr != 0 || dc != 0,
                1 <= d <= ri + ci + 1,
                nr == r + d * dr,
                nc == c + d * dc,
                forall|j: int| 0 <= j < v@.len() ==> (#[trigger] v@[j]) < g.len(),
                v@.map_values(|x: usize| x as int) + ray_spec(g, ci, ri, r as int, c as int, dr as int, dc as int, ignore as int, d as int)
                    == ray_spec(g, ci, ri, r as int, c as int, dr as int, dc as int, ignore as int, 1),
            ensures
                forall|j: int| 0 <= j < v@.len() ==> (#[trigger] v@[j]) < g.len(),
                v@.map_values(|x: usize| x as int) == ray_spec(g, ci, ri, r as int, c as int, dr as int, dc as int, ignore as int, 1),
            decreases ri + ci + 1 - d,
        {
            if !(nr >= 0 && nr < self.rows as isize && nc >= 0 && nc < self.cols as isize) {
                proof {
                    assert(ray_spec(g, ci, ri, r as int, c as int, dr as int, dc as int, ignore as int, d as int) == Seq::<int>::empty());
                    assert(v@.map_values(|x: usize| x as int) + Seq::<int>::empty() =~= v@.map_values(|x: usize| x as int));
                }
                break;
            }
            proof {
                assert(d <= ri + ci) by {
                    if dr != 0 {
                        assert(d <= ri) by (nonlinear_arith)
                            requires
                                0 <= r + d * dr < ri,
                                0 <= r < ri,
                                dr == 1 || dr == -1,
                                d >= 1,
                        ;
                    } else {
                        assert(d <= ci) by (nonlinear_arith)
                            requires
                                0 <= c + d * dc < ci,
                                0 <= c < ci,
                                dc == 1 || dc == -1,
                                d >= 1,
                        ;
                    }
                }
                assert(nr * ci + nc < ri * ci) by (nonlinear_arith)
                    requires
                        0 <= nr < ri,
                        0 <= nc < ci,
                ;
            }
            let idx = nr as usize * self.cols + nc as usize;
            if self.grid[idx] != -1 && idx as isize != ignore {
                proof {
                    assert(ray_spec(g, ci, ri, r as int, c as int, dr as int, dc as int, ignore as int, d as int) == Seq::<int>::empty());
                    assert(v@.map_values(|x: usize| x as int) + Seq::<int>::empty() =~= v@.map_values(|x: usize| x as int));
                }
                break;
            }
            let ghost v0 = v@;
            v.push(idx);
            proof {
                assert(v@.map_values(|x: usize| x as int) =~= v0.map_values(|x: usize| x as int).push(idx as int));
            }
            proof {
                assert((d + 1) * dr == d * dr + dr) by (nonlinear_arith);
                assert((d + 1) * dc == d * dc + dc) by (nonlinear_arith);
            }
            nr += dr;
            nc += dc;
            d += 1;
        }
        v
    }
}

impl Amazons {
    /// The line of squares from `cell` in direction `k`.
    fn ray_from(&self, cell: usize, k: usize, ignore: isize) -> (v: Vec<usize>)
        requires
            self.wf(),
            cell < self.grid@.len(),
            k < 8,
        ensures
            forall|j: int| 0 <= j < v@.len() ==> (#[trigger] v@[j]) < self.grid@.len(),
            v@.map_values(|x: usize| x as int) == self.ray_of(cell as int, k as int, ignore as int),
    {
        let r = cell / self.cols;
        let c = cell % self.cols;
        assert(r < self.rows) by (nonlinear_arith)
            requires
                cell < self.cols * self.rows,
                r == cell / self.cols,
                self.cols >= 1,
        ;
        let (dr, dc) = qdir_exec(k);
        self.ray(r, c, dr, dc, ignore)
    }

    fn push_arrow_moves(&self, from: usize, to: usize, v: &mut Vec<AzMove>)
        requires
            self.wf(),
            from < self.grid@.len(),
            to < self.grid@.len(),
        ensures
            final(v)@ == old(v)@ + self.arrow_moves(from as int, to as int, 8),
    {
        let ghost v0 = v@;
        let mut k: usize = 0;
        while k < 8
            invariant
                self.wf(),
                from < self.grid@.len(),
                to < self.grid@.len(),
                k <= 8,
                v@ == v0 + self.arrow_moves(from as int, to as int, k as int),
            decreases 8 - k,
        {
            let arrows = self.ray_from(to, k, from as isize);
            let ghost ar = self.ray_of(to as int, k as int, from as int);
            let ghost v1 = v@;
            let mut j: usize = 0;
            while j < arrows.len()
                invariant
                    self.wf(),
                    j <= arrows@.len(),
                    forall|q: int| 0 <= q < arrows@.len() ==> (#[trigger] arrows@[q]) < self.grid@.len(),
                    arrows@.map_values(|x: usize| x as int) == ar,
                    v@ == v1 + ar.take(j as int).map_values(|a: int| AzMove { from: from as u16, to: to as u16, arrow: a as u16 }),
                decreases arrows@.len() - j,
            {
                v.push(AzMove { from: from as u16, to: to as u16, arrow: arrows[j] as u16 });
                proof {
                    assert(ar[j as int] == arrows@[j as int] as int);
                    assert(ar.take(j + 1).map_values(|a: int| AzMove { from: from as u16, to: to as u16, arrow: a as u16 }) =~= ar.take(
                        j as int,
                    ).map_values(|a: int| AzMove { from: from as u16, to: to as u16, arrow: a as u16 }).push(
                        AzMove { from: from as u16, to: to as u16, arrow: arrows@[j as int] as u16 },
                    ));
                }
                j += 1;
            }
            proof {
                assert(ar.take(ar.len() as int) =~= ar);
                assert(v@ =~= v0 + self.arrow_moves(from as int, to as int, k + 1));
            }
            k += 1;
        }
    }

    fn push_from_moves(&self, from: usize, v: &mut Vec<AzMove>)
        requires
            self.wf(),
            from < self.grid@.len(),
        ensures
            final(v)@ == old(v)@ + self.from_moves(from as int, 8),
    {
        let ghost v0 = v@;
        let mut k: usize = 0;
        while k < 8
            invariant
                self.wf(),
                from < self.grid@.len(),
                k <= 8,
                v@ == v0 + self.from_moves(from as int, k as int),
            decreases 8 - k,
        {
            let tos = self.ray_from(from, k, -1);
            let ghost ts = self.ray_of(from as int, k as int, -1);
            let ghost v1 = v@;
            let mut j: usize = 0;
            while j < tos.len()
                invariant
                    self.wf(),
                    from < self.grid@.len(),
                    j <= tos@.len(),
                    forall|q: int| 0 <= q < tos@.len() ==> (#[trigger] tos@[q]) < self.grid@.len(),
                    tos@.map_values(|x: usize| x as int) == ts,
                    v@ == v1 + self.landing_moves(from as int, ts, j as int),
                decreases tos@.len() - j,
            {
                proof {
                    assert(ts[j as int] == tos@[j as int] as int);
                }
                self.push_arrow_moves(from, tos[j], v);
                proof {
                    assert(v@ =~= v1 + self.landing_moves(from as int, ts, j + 1));
                }
                j += 1;
            }
            proof {
                assert(v@ =~= v0 + self.from_moves(from as int, k + 1));
            }
            k += 1;
        }
    }

    /// Every move of the side to move.
    pub fn gen(&self) -> (v: Vec<AzMove>)
        requires
            self.wf(),
        ensures
            v@ == self.moves_spec(),
    {
        let mut v: Vec<AzMove> = Vec::new();
        let me = self.current as i8;
        let mut from: usize = 0;
        while from < self.grid.len()
            invariant
                self.wf(),
                me == self.current as i8,
                from <= self.grid@.len(),
                v@ == self.moves_upto(from as int),
            decreases self.grid@.len() - from,
        {
            let ghost v0 = v@;
            if self.grid[from] == me {
                self.push_from_moves(from, &mut v);
            }
            proof {
                assert(v@ =~= self.moves_upto(from + 1));
            }
            from += 1;
        }
        v
    }

    /// The side to move loses when it cannot move.
    pub open spec fn term_spec(&self) -> Option<Outcome> {
        if self.moves_spec().len() == 0 {
            Some(Outcome::Loss)
        } else {
            None
        }
    }

    pub fn term(&self) -> (t: Option<Outcome>)
        requires
            self.wf(),
        ensures
            t == self.term_spec(),
    {
        if self.gen().len() == 0 {
            Some(Outcome::Loss)
        } else {
            None
        }
    }

    pub fn current_player(&self) -> (p: u8)
        ensures
            p == self.current,
    {
        self.current
    }
}

/// Every square of a queen line lies on the board.
proof fn lemma_ray_in_range(g: Seq<i8>, cols: int, rows: int, r: int, c: int, dr: int, dc: int, ignore: int, d: int, j: int)
    requires
        cols >= 1,
        rows >= 1,
        0 <= j < ray_spec(g, cols, rows, r, c, dr, dc, ignore, d).len(),
    ensures
        0 <= ray_spec(g, cols, rows, r, c, dr, dc, ignore, d)[j] < cols * rows,
    decreases rows + cols + 1 - d,
{
    let (nr, nc) = (r + d * dr, c + d * dc);
    if j == 0 {
        assert(nr * cols + nc < cols * rows) by (nonlinear_arith)
            requires
                0 <= nr < rows,
                0 <= nc < cols,
        ;
        assert(nr * cols + nc >= 0) by (nonlinear_arith)
            requires
                0 <= nr < rows,
                0 <= nc < cols,
        ;
    } else {
        lemma_ray_in_range(g, cols, rows, r, c, dr, dc, ignore, d + 1, j - 1);
    }
}

/// A move of the board: its three squares lie on it.
pub open spec fn on_board(m: AzMove, n: int) -> bool {
    (m.from as int) < n && (m.to as int) < n && (m.arrow as int) < n
}

impl Amazons {
    proof fn lemma_arrow_moves_on_board(&self, from: int, to: int, k: int, m: AzMove)
        requires
            self.wf(),
            0 <= from < self.grid@.len(),
            0 <= to < self.grid@.len(),
            0 <= k <= 8,
            self.arrow_moves(from, to, k).contains(m),
        ensures
            on_board(m, self.grid@.len() as int),
        decreases k,
    {
        if k > 0 {
            let a = self.arrow_moves(from, to, k - 1);
            let ray = self.ray_of(to, k - 1, from);
            let b = ray.map_values(|x: int| AzMove { from: from as u16, to: to as u16, arrow: x as u16 });
            if a.contains(m) {
                self.lemma_arrow_moves_on_board(from, to, k - 1, m);
            } else {
                let i = choose|i: int| 0 <= i < (a + b).len() && (a + b)[i] == m;
                let q = i - a.len();
                assert(b[q] == m);
                lemma_ray_in_range(self.grid@, self.cols as int, self.rows as int, to / self.cols as int, to % self.cols as int, qdir(k - 1).0, qdir(k - 1).1, from, 1, q);
            }
        }
    }

    proof fn lemma_landing_on_board(&self, from: int, tos: Seq<int>, j: int, m: AzMove)
        requires
            self.wf(),
            0 <= from < self.grid@.len(),
            forall|q: int| 0 <= q < tos.len() ==> 0 <= #[trigger] tos[q] < self.grid@.len(),
            0 <= j <= tos.len(),
            self.landing_moves(from, tos, j).contains(m),
        ensures
            on_board(m, self.grid@.len() as int),
        decreases j,
    {
        if j > 0 {
            let a = self.landing_moves(from, tos, j - 1);
            let b = self.arrow_moves(from, tos[j - 1], 8);
            if a.contains(m) {
                self.lemma_landing_on_board(from, tos, j - 1, m);
            } else {
                let i = choose|i: int| 0 <= i < (a + b).len() && (a + b)[i] == m;
                assert(b[i - a.len()] == m);
                self.lemma_arrow_moves_on_board(from, tos[j - 1], 8, m);
            }
        }
    }

    proof fn lemma_from_on_board(&self, from: int, k: int, m: AzMove)
        requires
            self.wf(),
            0 <= from < self.grid@.len(),
            0 <= k <= 8,
            self.from_moves(from, k).contains(m),
        ensures
            on_board(m, self.grid@.len() as int),
        decreases k,
    {
        if k > 0 {
            let tos = self.ray_of(from, k - 1, -1);
            let a = self.from_moves(from, k - 1);
            let b = self.landing_moves(from, tos, tos.len() as int);
            if a.contains(m) {
                self.lemma_from_on_board(from, k - 1, m);
            } else {
                let i = choose|i: int| 0 <= i < (a + b).len() && (a + b)[i] == m;
                assert(b[i - a.len()] == m);
                assert forall|q: int| 0 <= q < tos.len() implies 0 <= #[trigger] tos[q] < self.grid@.len() by {
                    lemma_ray_in_range(self.grid@, self.cols as int, self.rows as int, from / self.cols as int, from % self.cols as int, qdir(k - 1).0, qdir(k - 1).1, -1, 1, q);
                }
                self.lemma_landing_on_board(from, tos, tos.len() as int, m);
            }
        }
    }

    proof fn lemma_upto_on_board(&self, n: int, m: AzMove)
        requires
            self.wf(),
            0 <= n <= self.grid@.len(),
            self.moves_upto(n).contains(m),
        ensures
            on_board(m, self.grid@.len() as int),
        decreases n,
    {
        if n > 0 {
            let a = self.moves_upto(n - 1);
            if a.contains(m) {
                self.lemma_upto_on_board(n - 1, m);
            } else {
                let b = if self.grid@[n - 1] == self.current as i8 { self.from_moves(n - 1, 8) } else { seq![] };
                let i = choose|i: int| 0 <= i < (a + b).len() && (a + b)[i] == m;
                assert(b[i - a.len()] == m);
                self.lemma_from_on_board(n - 1, 8, m);
            }
        }
    }

    /// Every legal move stays on the board.
    pub proof fn lemma_legal_on_board(&self, m: AzMove)
        requires
            self.wf(),
            self.moves_spec().contains(m),
        ensures
            on_board(m, self.grid@.len() as int),
    {
        self.lemma_upto_on_board(self.grid@.len() as int, m);
    }

    /// Play `m`: the amazon leaves `from` for `to` and the arrow burns `arrow`.
    pub fn make_move(&mut self, m: &AzMove)
        requires
            old(self).wf(),
            on_board(*m, old(self).grid@.len() as int),
        ensures
            final(self).wf(),
            final(self).cols == old(self).cols,
            final(self).rows == old(self).rows,
            final(self).grid@ == old(self).grid@.update(m.from as int, -1i8).update(m.to as int, old(self).current as i8).update(
                m.arrow as int,
                ARROW,
            ),
            final(self).current == 1 - old(self).current,
    {
        self.grid.set(m.from as usize, -1);
        self.grid.set(m.to as usize, self.current as i8);
        self.grid.set(m.arrow as usize, ARROW);
        self.current = 1 - self.current;
    }
}

/// Point character: `X` first player, `O` second player, `#` burnt, ` ` empty.
pub open spec fn square_char(v: i8) -> char {
    if v == 0 {
        'X'
    } else if v == 1 {
        'O'
    } else if v == 2 {
        '#'
    } else {
        ' '
    }
}

/// Text of a move: `from-to-arrow`.
pub open spec fn move_text(m: AzMove) -> Seq<char> {
    join_nums(seq![m.from as int, m.to as int, m.arrow as int], '-')
}

/// Texts of `ms` joined by `,`.
pub open spec fn moves_text(ms: Seq<AzMove>) -> Seq<char>
    decreases ms.len(),
{
    if ms.len() == 0 {
        seq![]
    } else if ms.len() == 1 {
        move_text(ms[0])
    } else {
        moves_text(ms.drop_last()) + seq![','] + move_text(ms.last())
    }
}

/// The move named by `cs`: three numbers joined by `-`, each read as a `u16`.
pub open spec fn parse_move_spec(cs: Seq<char>) -> Option<AzMove> {
    match parse_list(cs, '-', 65535) {
        Some(v) => if v.len() == 3 {
            Some(AzMove { from: v[0] as u16, to: v[1] as u16, arrow: v[2] as u16 })
        } else {
            None
        },
        None => None,
    }
}

impl AzMove {
    pub fn encode(&self) -> (s: String)
        ensures
            s@ == move_text(*self),
    {
        let v: Vec<u16> = vec![self.from, self.to, self.arrow];
        let mut s = String::new();
        push_joined(&mut s, &v, '-');
        assert(u16s(v@) =~= seq![self.from as int, self.to as int, self.arrow as int]);
        s
    }
}

/// The text of a move reads back as that move.
pub proof fn lemma_move_text_round_trip(m: AzMove)
    ensures
        parse_move_spec(move_text(m)) == Some(m),
{
    let p = seq![m.from as int, m.to as int, m.arrow as int];
    lemma_parse_list_join(p, '-', 65535);
}

impl Amazons {
    pub open spec fn board_text(&self) -> Seq<char> {
        Seq::new(self.grid@.len(), |i: int| square_char(self.grid@[i]))
    }

    pub fn board_string(&self) -> (s: String)
        ensures
            s@ == self.board_text(),
    {
        let mut s = String::new();
        let mut i: usize = 0;
        while i < self.grid.len()
            invariant
                i <= self.grid@.len(),
                s@ == Seq::new(i as nat, |j: int| square_char(self.grid@[j])),
            decreases self.grid@.len() - i,
        {
            let v = self.grid[i];
            push_char(&mut s, if v == 0 { 'X' } else if v == 1 { 'O' } else if v == 2 { '#' } else { ' ' });
            assert(s@ =~= Seq::new((i + 1) as nat, |j: int| square_char(self.grid@[j])));
            i += 1;
        }
        s
    }

    /// The winner counted from 1 once the side to move is stuck; empty while running.
    pub open spec fn result_text(&self) -> Seq<char> {
        match self.term_spec() {
            Some(Outcome::Loss) => crate::text::dec((1 - self.current + 1) as nat),
            _ => seq![],
        }
    }

    pub fn result_string(&self) -> (s: String)
        requires
            self.wf(),
        ensures
            s@ == self.result_text(),
    {
        let mut s = String::new();
        match self.term() {
            Some(Outcome::Loss) => crate::text::push_dec(&mut s, (1 - self.current) as u64 + 1),
            _ => {},
        }
        s
    }

    pub fn legal_moves_string(&self) -> (s: String)
        requires
            self.wf(),
        ensures
            s@ == moves_text(self.moves_spec()),
    {
        let moves = self.gen();
        let mut s = String::new();
        let mut i: usize = 0;
        while i < moves.len()
            invariant
                i <= moves@.len(),
                s@ == moves_text(moves@.take(i as int)),
            decreases moves@.len() - i,
        {
            if i > 0 {
                push_char(&mut s, ',');
            }
            let t = moves[i].encode();
            push_str(&mut s, t.as_str());
            proof {
                assert(moves@.take(i + 1).drop_last() =~= moves@.take(i as int));
            }
            i += 1;
        }
        assert(moves@.take(moves@.len() as int) =~= moves@);
        s
    }

    /// Read `mov` and play it if legal; false, leaving the game unchanged, otherwise.
    pub fn apply_text(&mut self, mov: &str) -> (ok: bool)
        requires
            old(self).wf(),
        ensures
            final(self).wf(),
            ok == (parse_move_spec(mov@) matches Some(m) && old(self).moves_spec().contains(m)),
            !ok ==> *final(self) == *old(self),
            ok ==> ({
                let m = parse_move_spec(mov@)->0;
                &&& final(self).grid@ == old(self).grid@.update(m.from as int, -1i8).update(m.to as int, old(self).current as i8).update(
                    m.arrow as int,
                    ARROW,
                )
                &&& final(self).current == 1 - old(self).current
            }),
            ok ==> final(self).cols == old(self).cols && final(self).rows == old(self).rows,
    {
        let cs = chars_of(mov);
        let parts = match parse_u16_list(&cs, '-') {
            Some(p) => p,
            None => {
                return false;
            },
        };
        if parts.len() != 3 {
            return false;
        }
        let m = AzMove { from: parts[0], to: parts[1], arrow: parts[2] };
        proof {
            assert(parse_move_spec(mov@) == Some(m));
        }
        let moves = self.gen();
        let mut found = false;
        let mut i: usize = 0;
        while i < moves.len()
            invariant
                i <= moves@.len(),
                found == exists|j: int| 0 <= j < i && moves@[j] == m,
            decreases moves@.len() - i,
        {
            if moves[i] == m {
                found = true;
            }
            i += 1;
        }
        if !found {
            return false;
        }
        proof {
            self.lemma_legal_on_board(m);
        }
        self.make_move(&m);
        true
    }
}


/// Index of direction `(dr, dc)` among the eight queen directions.
pub open spec fn qdir_index(dr: int, dc: int) -> int {
    if dr == -1 {
        if dc == -1 { 0 } else if dc == 0 { 1 } else { 2 }
    } else if dr == 0 {
        if dc == -1 { 3 } else { 4 }
    } else {
        if dc == -1 { 5 } else if dc == 0 { 6 } else { 7 }
    }
}

/// The squares at distances `1..=d` from `(r, c)` along `(dr, dc)` are on the board and
/// empty, or are the square `ignore`.
pub open spec fn clear_line(g: Seq<i8>, cols: int, rows: int, r: int, c: int, dr: int, dc: int, d: int, ignore: int) -> bool {
    forall|t: int|
        1 <= t <= d ==> 0 <= #[trigger] (r + t * dr) < rows && 0 <= c + t * dc < cols && (g[(r + t * dr) * cols + (c + t * dc)] == -1
            || (r + t * dr) * cols + (c + t * dc) == ignore)
}

/// A line that stays on the board from an on-board square is shorter than
/// `rows + cols`.
proof fn lemma_line_short(cols: int, rows: int, r: int, c: int, dr: int, dc: int, d: int)
    requires
        0 <= r < rows,
        0 <= c < cols,
        0 <= r + d * dr < rows,
        0 <= c + d * dc < cols,
        -1 <= dr <= 1,
        -1 <= dc <= 1,
        dr != 0 || dc != 0,
        d >= 1,
    ensures
        d <= rows + cols,
{
    assert(d <= rows + cols) by (nonlinear_arith)
        requires
            0 <= r < rows,
            0 <= c < cols,
            0 <= r + d * dr < rows,
            0 <= c + d * dc < cols,
            -1 <= dr <= 1,
            -1 <= dc <= 1,
            dr != 0 || dc != 0,
            d >= 1,
    ;
}

/// A clear line's square at distance `d` is on the ray from distance `s` on.
proof fn lemma_ray_reaches(g: Seq<i8>, cols: int, rows: int, r: int, c: int, dr: int, dc: int, ignore: int, s: int, d: int)
    requires
        1 <= s <= d <= rows + cols,
        clear_line(g, cols, rows, r, c, dr, dc, d, ignore),
    ensures
        ray_spec(g, cols, rows, r, c, dr, dc, ignore, s).contains((r + d * dr) * cols + (c + d * dc)),
    decreases d - s,
{
    let x = (r + d * dr) * cols + (c + d * dc);
    assert(0 <= (r + s * dr) < rows);
    let rest = ray_spec(g, cols, rows, r, c, dr, dc, ignore, s + 1);
    let here = (r + s * dr) * cols + (c + s * dc);
    assert(ray_spec(g, cols, rows, r, c, dr, dc, ignore, s) == seq![here] + rest);
    if s == d {
        assert((seq![here] + rest)[0] == x);
    } else {
        lemma_ray_reaches(g, cols, rows, r, c, dr, dc, ignore, s + 1, d);
        let j = choose|j: int| 0 <= j < rest.len() && rest[j] == x;
        assert((seq![here] + rest)[j + 1] == x);
    }
}

impl Amazons {
    proof fn lemma_arrow_moves_has(&self, from: int, to: int, n: int, k: int, a: int)
        requires
            0 <= k < n,
            self.ray_of(to, k, from).contains(a),
        ensures
            self.arrow_moves(from, to, n).contains(AzMove { from: from as u16, to: to as u16, arrow: a as u16 }),
        decreases n,
    {
        let m = AzMove { from: from as u16, to: to as u16, arrow: a as u16 };
        let prev = self.arrow_moves(from, to, n - 1);
        let ray = self.ray_of(to, n - 1, from);
        let mapped = ray.map_values(|x: int| AzMove { from: from as u16, to: to as u16, arrow: x as u16 });
        if k < n - 1 {
            self.lemma_arrow_moves_has(from, to, n - 1, k, a);
            let j = choose|j: int| 0 <= j < prev.len() && prev[j] == m;
            assert((prev + mapped)[j] == m);
        } else {
            let j = choose|j: int| 0 <= j < ray.len() && ray[j] == a;
            assert(mapped[j] == m);
            assert((prev + mapped)[prev.len() + j] == m);
        }
    }

    proof fn lemma_landing_moves_has(&self, from: int, tos: Seq<int>, j: int, i: int, m: AzMove)
        requires
            0 <= i < j <= tos.len(),
            self.arrow_moves(from, tos[i], 8).contains(m),
        ensures
            self.landing_moves(from, tos, j).contains(m),
        decreases j,
    {
        let prev = self.landing_moves(from, tos, j - 1);
        let last = self.arrow_moves(from, tos[j - 1], 8);
        if i < j - 1 {
            self.lemma_landing_moves_has(from, tos, j - 1, i, m);
            let x = choose|x: int| 0 <= x < prev.len() && prev[x] == m;
            assert((prev + last)[x] == m);
        } else {
            let x = choose|x: int| 0 <= x < last.len() && last[x] == m;
            assert((prev + last)[prev.len() + x] == m);
        }
    }

    proof fn lemma_from_moves_has(&self, from: int, n: int, k: int, to: int, m: AzMove)
        requires
            0 <= k < n,
            self.ray_of(from, k, -1).contains(to),
            self.arrow_moves(from, to, 8).contains(m),
        ensures
            self.from_moves(from, n).contains(m),
        decreases n,
    {
        let prev = self.from_moves(from, n - 1);
        let tos = self.ray_of(from, n - 1, -1);
        let last = self.landing_moves(from, tos, tos.len() as int);
        if k < n - 1 {
            self.lemma_from_moves_has(from, n - 1, k, to, m);
            let x = choose|x: int| 0 <= x < prev.len() && prev[x] == m;
            assert((prev + last)[x] == m);
        } else {
            let i = choose|i: int| 0 <= i < tos.len() && tos[i] == to;
            self.lemma_landing_moves_has(from, tos, tos.len() as int, i, m);
            let x = choose|x: int| 0 <= x < last.len() && last[x] == m;
            assert((prev + last)[prev.len() + x] == m);
        }
    }

    proof fn lemma_moves_upto_has(&self, n: int, from: int, m: AzMove)
        requires
            0 <= from < n,
            self.grid@[from] == self.current as i8,
            self.from_moves(from, 8).contains(m),
        ensures
            self.moves_upto(n).contains(m),
        decreases n,
    {
        let prev = self.moves_upto(n - 1);
        let last = if self.grid@[n - 1] == self.current as i8 { self.from_moves(n - 1, 8) } else { seq![] };
        if from < n - 1 {
            self.lemma_moves_upto_has(n - 1, from, m);
            let x = choose|x: int| 0 <= x < prev.len() && prev[x] == m;
            assert((prev + last)[x] == m);
        } else {
            let x = choose|x: int| 0 <= x < last.len() && last[x] == m;
            assert((prev + last)[prev.len() + x] == m);
        }
    }

    /// Move generation is complete: for every amazon of the side to move, every square
    /// `to` it reaches along a queen line over empty squares, and every square it can
    /// then shoot at along any of the eight queen lines from `to` over empty squares
    /// (the square it left counting as empty), that move is generated.
    pub proof fn lemma_every_queen_move_generated(&self, from: int, dr: int, dc: int, d1: int, er: int, ec: int, d2: int)
        requires
            self.wf(),
            0 <= from < self.grid@.len(),
            self.grid@[from] == self.current as i8,
            -1 <= dr <= 1,
            -1 <= dc <= 1,
            dr != 0 || dc != 0,
            -1 <= er <= 1,
            -1 <= ec <= 1,
            er != 0 || ec != 0,
            d1 >= 1,
            d2 >= 1,
            clear_line(self.grid@, self.cols as int, self.rows as int, from / self.cols as int, from % self.cols as int, dr, dc, d1, -1),
            clear_line(
                self.grid@,
                self.cols as int,
                self.rows as int,
                from / self.cols as int + d1 * dr,
                from % self.cols as int + d1 * dc,
                er,
                ec,
                d2,
                from,
            ),
        ensures
            ({
                let (cols, r, c) = (self.cols as int, from / self.cols as int, from % self.cols as int);
                let (tr, tc) = (r + d1 * dr, c + d1 * dc);
                let to = tr * cols + tc;
                let a = (tr + d2 * er) * cols + (tc + d2 * ec);
                self.moves_spec().contains(AzMove { from: from as u16, to: to as u16, arrow: a as u16 })
            }),
    {
        let (g, cols, rows) = (self.grid@, self.cols as int, self.rows as int);
        crate::capturego::lemma_cell_arith(cols, rows, from);
        let (r, c) = (from / cols, from % cols);
        let (tr, tc) = (r + d1 * dr, c + d1 * dc);
        let to = tr * cols + tc;
        let a = (tr + d2 * er) * cols + (tc + d2 * ec);
        assert(0 <= r + d1 * dr < rows);
        lemma_line_short(cols, rows, r, c, dr, dc, d1);
        assert(0 <= tr + d2 * er < rows);
        lemma_line_short(cols, rows, tr, tc, er, ec, d2);
        let k1 = qdir_index(dr, dc);
        let k2 = qdir_index(er, ec);
        assert(qdir(k1) == (dr, dc));
        assert(qdir(k2) == (er, ec));
        lemma_ray_reaches(g, cols, rows, r, c, dr, dc, -1, 1, d1);
        assert(self.ray_of(from, k1, -1).contains(to));
        vstd::arithmetic::div_mod::lemma_fundamental_div_mod_converse(to, cols, tr, tc);
        lemma_ray_reaches(g, cols, rows, tr, tc, er, ec, from, 1, d2);
        assert(self.ray_of(to, k2, from).contains(a));
        self.lemma_arrow_moves_has(from, to, 8, k2, a);
        let m = AzMove { from: from as u16, to: to as u16, arrow: a as u16 };
        self.lemma_from_moves_has(from, 8, k1, to, m);
        self.lemma_moves_upto_has(g.len() as int, from, m);
    }
}


/// Each square of the ray from distance `s` on is the square at some distance `d >= s`
/// whose line from distance `s` is clear.
proof fn lemma_ray_member(g: Seq<i8>, cols: int, rows: int, r: int, c: int, dr: int, dc: int, ignore: int, s: int, x: int) -> (d: int)
    requires
        s >= 1,
        ray_spec(g, cols, rows, r, c, dr, dc, ignore, s).contains(x),
    ensures
        s <= d,
        x == (r + d * dr) * cols + (c + d * dc),
        forall|t: int|
            s <= t <= d ==> 0 <= #[trigger] (r + t * dr) < rows && 0 <= c + t * dc < cols && (g[(r + t * dr) * cols + (c + t * dc)] == -1
                || (r + t * dr) * cols + (c + t * dc) == ignore),
    decreases rows + cols + 1 - s,
{
    let rest = ray_spec(g, cols, rows, r, c, dr, dc, ignore, s + 1);
    let here = (r + s * dr) * cols + (c + s * dc);
    assert(ray_spec(g, cols, rows, r, c, dr, dc, ignore, s) == seq![here] + rest);
    let j = choose|j: int| 0 <= j < (seq![here] + rest).len() && (seq![here] + rest)[j] == x;
    if j == 0 {
        s
    } else {
        assert(rest[j - 1] == x);
        let d = lemma_ray_member(g, cols, rows, r, c, dr, dc, ignore, s + 1, x);
        assert forall|t: int|
            s <= t <= d implies 0 <= #[trigger] (r + t * dr) < rows && 0 <= c + t * dc < cols && (g[(r + t * dr) * cols + (c + t * dc)]
                == -1 || (r + t * dr) * cols + (c + t * dc) == ignore) by {
            if t == s {
            }
        }
        d
    }
}

impl Amazons {
    /// `m` is a queen move of the amazon on `m.from`: it travels `d1` squares along
    /// `(dr, dc)` over empty squares to `m.to`, then shoots `d2` squares along `(er, ec)`
    /// over empty squares (the square it left counting as empty) to `m.arrow`.
    pub open spec fn queen_shot(&self, m: AzMove, dr: int, dc: int, d1: int, er: int, ec: int, d2: int) -> bool {
        let (cols, rows) = (self.cols as int, self.rows as int);
        let from = m.from as int;
        let (r, c) = (from / cols, from % cols);
        let (tr, tc) = (r + d1 * dr, c + d1 * dc);
        &&& 0 <= from < self.grid@.len()
        &&& self.grid@[from] == self.current as i8
        &&& -1 <= dr <= 1 && -1 <= dc <= 1 && (dr != 0 || dc != 0)
        &&& -1 <= er <= 1 && -1 <= ec <= 1 && (er != 0 || ec != 0)
        &&& d1 >= 1 && d2 >= 1
        &&& clear_line(self.grid@, cols, rows, r, c, dr, dc, d1, -1)
        &&& clear_line(self.grid@, cols, rows, tr, tc, er, ec, d2, from)
        &&& m.to as int == tr * cols + tc
        &&& m.arrow as int == (tr + d2 * er) * cols + (tc + d2 * ec)
    }

    proof fn lemma_arrow_moves_from(&self, from: int, to: int, n: int, m: AzMove) -> (ka: (int, int))
        requires
            self.arrow_moves(from, to, n).contains(m),
        ensures
            0 <= ka.0 < n,
            self.ray_of(to, ka.0, from).contains(ka.1),
            m == (AzMove { from: from as u16, to: to as u16, arrow: ka.1 as u16 }),
        decreases n,
    {
        let prev = self.arrow_moves(from, to, n - 1);
        let ray = self.ray_of(to, n - 1, from);
        let mapped = ray.map_values(|x: int| AzMove { from: from as u16, to: to as u16, arrow: x as u16 });
        let j = choose|j: int| 0 <= j < (prev + mapped).len() && (prev + mapped)[j] == m;
        if j < prev.len() {
            assert(prev[j] == m);
            self.lemma_arrow_moves_from(from, to, n - 1, m)
        } else {
            assert(mapped[j - prev.len()] == m);
            assert(ray.contains(ray[j - prev.len()]));
            (n - 1, ray[j - prev.len()])
        }
    }

    proof fn lemma_landing_moves_from(&self, from: int, tos: Seq<int>, j: int, m: AzMove) -> (i: int)
        requires
            j <= tos.len(),
            self.landing_moves(from, tos, j).contains(m),
        ensures
            0 <= i < j,
            self.arrow_moves(from, tos[i], 8).contains(m),
        decreases j,
    {
        let prev = self.landing_moves(from, tos, j - 1);
        let last = self.arrow_moves(from, tos[j - 1], 8);
        let x = choose|x: int| 0 <= x < (prev + last).len() && (prev + last)[x] == m;
        if x < prev.len() {
            assert(prev[x] == m);
            self.lemma_landing_moves_from(from, tos, j - 1, m)
        } else {
            assert(last[x - prev.len()] == m);
            j - 1
        }
    }

    proof fn lemma_from_moves_from(&self, from: int, n: int, m: AzMove) -> (kt: (int, int))
        requires
            self.from_moves(from, n).contains(m),
        ensures
            0 <= kt.0 < n,
            self.ray_of(from, kt.0, -1).contains(kt.1),
            self.arrow_moves(from, kt.1, 8).contains(m),
        decreases n,
    {
        let prev = self.from_moves(from, n - 1);
        let tos = self.ray_of(from, n - 1, -1);
        let last = self.landing_moves(from, tos, tos.len() as int);
        let x = choose|x: int| 0 <= x < (prev + last).len() && (prev + last)[x] == m;
        if x < prev.len() {
            assert(prev[x] == m);
            self.lemma_from_moves_from(from, n - 1, m)
        } else {
            assert(last[x - prev.len()] == m);
            let i = self.lemma_landing_moves_from(from, tos, tos.len() as int, m);
            assert(tos.contains(tos[i]));
            (n - 1, tos[i])
        }
    }

    proof fn lemma_moves_upto_from(&self, n: int, m: AzMove) -> (from: int)
        requires
            n <= self.grid@.len(),
            self.moves_upto(n).contains(m),
        ensures
            0 <= from < n,
            self.grid@[from] == self.current as i8,
            self.from_moves(from, 8).contains(m),
        decreases n,
    {
        let prev = self.moves_upto(n - 1);
        let last = if self.grid@[n - 1] == self.current as i8 { self.from_moves(n - 1, 8) } else { seq![] };
        let x = choose|x: int| 0 <= x < (prev + last).len() && (prev + last)[x] == m;
        if x < prev.len() {
            assert(prev[x] == m);
            self.lemma_moves_upto_from(n - 1, m)
        } else {
            assert(last[x - prev.len()] == m);
            n - 1
        }
    }

    /// Move generation is sound: every generated move is a queen move of an amazon of
    /// the side to move over empty squares, followed by a queen-line arrow shot over
    /// empty squares (the square it left counting as empty).
    pub proof fn lemma_generated_moves_are_queen_shots(&self, m: AzMove)
        requires
            self.wf(),
            self.moves_spec().contains(m),
        ensures
            exists|dr: int, dc: int, d1: int, er: int, ec: int, d2: int| #[trigger] self.queen_shot(m, dr, dc, d1, er, ec, d2),
    {
        let (g, cols, rows) = (self.grid@, self.cols as int, self.rows as int);
        let from = self.lemma_moves_upto_from(g.len() as int, m);
        let (k1, to) = self.lemma_from_moves_from(from, 8, m);
        let (k2, a) = self.lemma_arrow_moves_from(from, to, 8, m);
        crate::capturego::lemma_cell_arith(cols, rows, from);
        let (r, c) = (from / cols, from % cols);
        let (dr, dc) = qdir(k1);
        let (er, ec) = qdir(k2);
        let d1 = lemma_ray_member(g, cols, rows, r, c, dr, dc, -1, 1, to);
        assert(clear_line(g, cols, rows, r, c, dr, dc, d1, -1));
        let (tr, tc) = (r + d1 * dr, c + d1 * dc);
        assert(0 <= tr < rows && 0 <= tc < cols);
        vstd::arithmetic::div_mod::lemma_fundamental_div_mod_converse(to, cols, tr, tc);
        let d2 = lemma_ray_member(g, cols, rows, tr, tc, er, ec, from, 1, a);
        assert(clear_line(g, cols, rows, tr, tc, er, ec, d2, from));
        crate::gridlib::lemma_cell_index(rows, cols, tr, tc);
        assert(0 <= tr + d2 * er < rows);
        crate::gridlib::lemma_cell_index(rows, cols, tr + d2 * er, tc + d2 * ec);
        assert(m.from as int == from);
        assert(self.queen_shot(m, dr, dc, d1, er, ec, d2));
    }
}

} // verus!
