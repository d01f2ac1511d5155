//! Quadline: two players on an `s`-by-`s` board first drop their four pieces on
//! empty cells, then slide one piece per turn to an adjacent empty cell (eight
//! directions). Four pieces in a straight line (rows and columns, diagonals when
//! enabled) or in a 2-by-2 square win. Sliding can cycle, so a ply cap declares a
//! draw.
use vstd::prelude::*;
use crate::outcome::Outcome;
use crate::text::{push_char, push_str, push_dec, dec, chars_of, parse_uint, parse_uint_range};

verus! {

pub const MAX_DIM: usize = 7;
pub const MAX_CELLS: usize = 49;
pub const PIECES_PER_PLAYER: u8 = 4;
pub const WIN_LEN: usize = 4;
pub const PLY_CAP: u16 = 120;

#[derive(Clone, Copy, Debug, PartialEq, Eq, Structural)]
pub enum Cell {
    Empty,
    Player(u8),
}

/// A drop on `to` (`from` is `None`) or a slide from `from` to `to`.
#[derive(Clone, Copy, Debug, PartialEq, Eq, Structural)]
pub struct QuadMove {
    pub from: Option<u8>,
    pub to: u8,
}

/// The neighbour of cell `idx` in direction `(dr, dc)` on an `s`-wide board, if on it.
pub open spec fn nbr_at(s: int, idx: int, dr: int, dc: int) -> Seq<u8> {
    let r = idx / s + dr;
    let c = idx % s + dc;
    if 0 <= r < s && 0 <= c < s {
        seq![(r * s + c) as u8]
    } else {
        seq![]
    }
}

/// The up to eight neighbours of `idx`, row by row from the upper left.
pub open spec fn neighbours_spec(s: int, idx: int) -> Seq<u8> {
    nbr_at(s, idx, -1, -1) + nbr_at(s, idx, -1, 0) + nbr_at(s, idx, -1, 1) + nbr_at(s, idx, 0, -1) + nbr_at(s, idx, 0, 1)
        + nbr_at(s, idx, 1, -1) + nbr_at(s, idx, 1, 0) + nbr_at(s, idx, 1, 1)
}

/// The winning shapes anchored at `(r, c)`: the row and column of four to the right
/// and down, the two diagonals when enabled, and the 2-by-2 square.
pub open spec fn shapes_at(s: int, diag: bool, r: int, c: int) -> Seq<Seq<int>> {
    (if c + 4 <= s {
        seq![seq![r * s + c, r * s + c + 1, r * s + c + 2, r * s + c + 3]]
    } else {
        seq![]
    }) + (if r + 4 <= s {
        seq![seq![r * s + c, (r + 1) * s + c, (r + 2) * s + c, (r + 3) * s + c]]
    } else {
        seq![]
    }) + (if diag && r + 4 <= s && c + 4 <= s {
        seq![seq![r * s + c, (r + 1) * s + c + 1, (r + 2) * s + c + 2, (r + 3) * s + c + 3]]
    } else {
        seq![]
    }) + (if diag && r + 4 <= s && c >= 3 {
        seq![seq![r * s + c, (r + 1) * s + c - 1, (r + 2) * s + c - 2, (r + 3) * s + c - 3]]
    } else {
        seq![]
    }) + (if r + 1 < s && c + 1 < s {
        seq![seq![r * s + c, r * s + c + 1, (r + 1) * s + c, (r + 1) * s + c + 1]]
    } else {
        seq![]
    })
}

/// The shapes anchored at the first `k` cells, in cell order.
pub open spec fn shapes_upto(s: int, diag: bool, k: int) -> Seq<Seq<int>>
    decreases k,
{
    if k <= 0 {
        seq![]
    } else {
        shapes_upto(s, diag, k - 1) + shapes_at(s, diag, (k - 1) / s, (k - 1) % s)
    }
}

/// Every winning shape of the board.
pub open spec fn shapes_spec(s: int, diag: bool) -> Seq<Seq<int>> {
    shapes_upto(s, diag, s * s)
}

/// Cells of shape `sh` all hold player `p`.
pub open spec fn uniform(b: Seq<Cell>, sh: Seq<int>, p: u8) -> bool {
    forall|j: int| 0 <= j < 4 ==> #[trigger] b[sh[j]] == Cell::Player(p)
}

/// The owner of the first shape from the `k`-th on whose four cells hold one player.
pub open spec fn winner_from(b: Seq<Cell>, shapes: Seq<Seq<int>>, k: int) -> Option<u8>
    decreases shapes.len() - k,
{
    if k >= shapes.len() || k < 0 {
        None
    } else {
        match b[shapes[k][0]] {
            Cell::Player(p) => if uniform(b, shapes[k], p) {
                Some(p)
            } else {
                winner_from(b, shapes, k + 1)
            },
            Cell::Empty => winner_from(b, shapes, k + 1),
        }
    }
}

/// Cells among the first `j` of shape `sh` that hold `player` (`mine`) or another
/// player (`!mine`).
pub open spec fn count_in(b: Seq<Cell>, sh: Seq<int>, player: u8, mine: bool, j: int) -> int
    decreases j,
{
    if j <= 0 {
        0
    } else {
        count_in(b, sh, player, mine, j - 1) + match b[sh[j - 1]] {
            Cell::Player(p) => if (p == player) == mine {
                1int
            } else {
                0
            },
            Cell::Empty => 0,
        }
    }
}

/// A shape held only by `player` scores the square of its pieces, one held only by
/// others costs the square of theirs, a mixed or empty one nothing.
pub open spec fn shape_score(b: Seq<Cell>, sh: Seq<int>, player: u8) -> int {
    let mine = count_in(b, sh, player, true, 4);
    let theirs = count_in(b, sh, player, false, 4);
    if theirs == 0 {
        mine * mine
    } else if mine == 0 {
        -(theirs * theirs)
    } else {
        0
    }
}

pub open spec fn eval_upto(b: Seq<Cell>, shapes: Seq<Seq<int>>, player: u8, k: int) -> int
    decreases k,
{
    if k <= 0 {
        0
    } else {
        eval_upto(b, shapes, player, k - 1) + shape_score(b, shapes[k - 1], player)
    }
}

/// Cells among the first `k` that hold `c`.
pub open spec fn cells_of(b: Seq<Cell>, c: Cell, k: int) -> int
    decreases k,
{
    if k <= 0 {
        0
    } else {
        cells_of(b, c, k - 1) + if b[k - 1] == c { 1int } else { 0 }
    }
}

/// A shape's cells lie on the board.
proof fn lemma_shape_on_board(s: int, diag: bool, k: int, i: int)
    requires
        1 <= s <= 7,
        0 <= k <= s * s,
        0 <= i < shapes_upto(s, diag, k).len(),
    ensures
        shapes_upto(s, diag, k)[i].len() == 4,
        forall|j: int| 0 <= j < 4 ==> 0 <= #[trigger] shapes_upto(s, diag, k)[i][j] < s * s,
    decreases k,
{
    let prev = shapes_upto(s, diag, k - 1);
    if i < prev.len() {
        lemma_shape_on_board(s, diag, k - 1, i);
    } else {
        let x = k - 1;
        let r = x / s;
        let c = x % s;
        vstd::arithmetic::div_mod::lemma_fundamental_div_mod(x, s);
        vstd::arithmetic::div_mod::lemma_mod_pos_bound(x, s);
        vstd::arithmetic::div_mod::lemma_div_pos_is_pos(x, s);
        assert(r < s) by {
            vstd::arithmetic::div_mod::lemma_div_is_ordered(x, s * s - 1, s);
            vstd::arithmetic::div_mod::lemma_div_by_multiple_is_strongly_ordered(s * s - 1, s * s, s, s);
            vstd::arithmetic::div_mod::lemma_div_by_multiple(s, s);
        }
        if c + 4 <= s {
            lemma_cell_in(s, r, c);
            lemma_cell_in(s, r, c + 3);
        }
        if r + 4 <= s {
            lemma_cell_in(s, r, c);
            lemma_cell_in(s, r + 1, c);
            lemma_cell_in(s, r + 2, c);
            lemma_cell_in(s, r + 3, c);
            if c + 4 <= s {
                lemma_cell_in(s, r + 1, c + 1);
                lemma_cell_in(s, r + 2, c + 2);
                lemma_cell_in(s, r + 3, c + 3);
            }
            if c >= 3 {
                lemma_cell_in(s, r + 1, c - 1);
                lemma_cell_in(s, r + 2, c - 2);
                lemma_cell_in(s, r + 3, c - 3);
            }
        }
        if r + 1 < s && c + 1 < s {
            lemma_cell_in(s, r, c);
            lemma_cell_in(s, r, c + 1);
            lemma_cell_in(s, r + 1, c);
            lemma_cell_in(s, r + 1, c + 1);
        }
        assert((r + 1) * s == r * s + s && (r + 2) * s == r * s + 2 * s && (r + 3) * s == r * s + 3 * s)
            by (nonlinear_arith);
    }
}

proof fn lemma_cell_in(s: int, a: int, b: int)
    requires
        0 <= a < s,
        0 <= b < s,
    ensures
        0 <= a * s + b < s * s,
{
    assert(0 <= a * s + b < s * s) by (nonlinear_arith)
        requires
            0 <= a < s,
            0 <= b < s,
    ;
}

/// A neighbour lies on the board, one step away in row and column.
proof fn lemma_nbr(s: int, idx: int, dr: int, dc: int)
    requires
        1 <= s <= 7,
        0 <= idx < s * s,
        -1 <= dr <= 1,
        -1 <= dc <= 1,
    ensures
        nbr_at(s, idx, dr, dc).len() <= 1,
        nbr_at(s, idx, dr, dc).len() == 1 ==> (nbr_at(s, idx, dr, dc)[0] as int) < s * s && (nbr_at(s, idx, dr, dc)[0] as int)
            / s == idx / s + dr && (nbr_at(s, idx, dr, dc)[0] as int) % s == idx % s + dc,
{
    let r = idx / s + dr;
    let c = idx % s + dc;
    if 0 <= r < s && 0 <= c < s {
        assert(0 <= r * s + c < s * s) by (nonlinear_arith)
            requires
                0 <= r < s,
                0 <= c < s,
        ;
        assert(s * s <= 49) by (nonlinear_arith)
            requires
                1 <= s <= 7,
        ;
        vstd::arithmetic::div_mod::lemma_fundamental_div_mod_converse(r * s + c, s, r, c);
    }
}

/// A shape given by its four cells, as integers.
pub open spec fn shape_view(t: (usize, usize, usize, usize)) -> Seq<int> {
    seq![t.0 as int, t.1 as int, t.2 as int, t.3 as int]
}

pub open spec fn shapes_view(v: Seq<(usize, usize, usize, usize)>) -> Seq<Seq<int>> {
    Seq::new(v.len(), |i: int| shape_view(v[i]))
}

/// The empty cells among the first `k`, as drops.
pub open spec fn drops_upto(b: Seq<Cell>, k: int) -> Seq<QuadMove>
    decreases k,
{
    if k <= 0 {
        seq![]
    } else {
        drops_upto(b, k - 1) + if b[k - 1] == Cell::Empty {
            seq![QuadMove { from: None, to: (k - 1) as u8 }]
        } else {
            seq![]
        }
    }
}

/// Slides from `from` to the empty cells among the first `j` of `nbs`.
pub open spec fn slides_nb(b: Seq<Cell>, nbs: Seq<u8>, from: int, j: int) -> Seq<QuadMove>
    decreases j,
{
    if j <= 0 {
        seq![]
    } else {
        slides_nb(b, nbs, from, j - 1) + if b[nbs[j - 1] as int] == Cell::Empty {
            seq![QuadMove { from: Some(from as u8), to: nbs[j - 1] }]
        } else {
            seq![]
        }
    }
}

/// Slides of `me`'s pieces among the first `k` cells, cell by cell.
pub open spec fn slides_upto(b: Seq<Cell>, s: int, me: u8, k: int) -> Seq<QuadMove>
    decreases k,
{
    if k <= 0 {
        seq![]
    } else {
        slides_upto(b, s, me, k - 1) + if b[k - 1] == Cell::Player(me) {
            slides_nb(b, neighbours_spec(s, k - 1), k - 1, neighbours_spec(s, k - 1).len() as int)
        } else {
            seq![]
        }
    }
}

/// The board after the side to move plays `m`.
pub open spec fn after_board(b: Seq<Cell>, cur: u8, m: QuadMove) -> Seq<Cell> {
    match m.from {
        None => b.update(m.to as int, Cell::Player(cur)),
        Some(f) => b.update(f as int, Cell::Empty).update(m.to as int, Cell::Player(cur)),
    }
}

#[derive(Clone, Debug)]
pub struct QuadlineGame {
    pub board: [Cell; 49],
    pub current: u8,
    pub size: usize,
    pub diagonals: bool,
    pub pieces_placed: [u8; 2],
    pub ply: u16,
}

impl QuadlineGame {
    pub open spec fn wf(&self) -> bool {
        &&& 1 <= self.size <= 7
        &&& self.current < 2
    }

    pub open spec fn ncells(&self) -> int {
        self.size * self.size
    }

    pub open spec fn placing(&self) -> bool {
        self.pieces_placed@[self.current as int] < PIECES_PER_PLAYER
    }

    pub open spec fn shapes(&self) -> Seq<Seq<int>> {
        shapes_spec(self.size as int, self.diagonals)
    }

    pub open spec fn winner_spec(&self) -> Option<u8> {
        winner_from(self.board@, self.shapes(), 0)
    }

    /// Drops on the empty cells while the side to move still has pieces in hand,
    /// slides of its pieces to adjacent empty cells afterwards.
    pub open spec fn gen_spec(&self) -> Seq<QuadMove> {
        if self.placing() {
            drops_upto(self.board@, self.ncells())
        } else {
            slides_upto(self.board@, self.size as int, self.current, self.ncells())
        }
    }

    /// No moves once a shape is complete or the ply cap is reached.
    pub open spec fn moves_spec(&self) -> Seq<QuadMove> {
        if self.winner_spec() is Some || self.ply >= PLY_CAP {
            seq![]
        } else {
            self.gen_spec()
        }
    }

    /// A completed shape is a loss for the side to move (its opponent made it); the
    /// ply cap and a side that cannot move are draws.
    pub open spec fn term_spec(&self) -> Option<Outcome> {
        if self.winner_spec() is Some {
            Some(Outcome::Loss)
        } else if self.ply >= PLY_CAP {
            Some(Outcome::Draw)
        } else if self.gen_spec().len() == 0 {
            Some(Outcome::Draw)
        } else {
            None
        }
    }

    /// An empty board of `size` by `size` cells, the first player to drop.
    pub fn new(size: usize, diagonals: bool) -> (g: Self)
        requires
            1 <= size <= 7,
        ensures
            g.wf(),
            g.size == size,
            g.diagonals == diagonals,
            g.current == 0,
            g.ply == 0,
            g.pieces_placed@ == seq![0u8, 0u8],
            forall|i: int| 0 <= i < 49 ==> #[trigger] g.board@[i] == Cell::Empty,
    {
        QuadlineGame { board: [Cell::Empty; 49], current: 0, size, diagonals, pieces_placed: [0, 0], ply: 0 }
    }

    pub fn cell_count(&self) -> (n: usize)
        requires
            self.wf(),
        ensures
            n == self.ncells(),
            n <= 49,
    {
        assert(self.size * self.size <= 49) by (nonlinear_arith)
            requires
                1 <= self.size <= 7,
        ;
        self.size * self.size
    }

    pub fn in_placement_phase(&self) -> (b: bool)
        requires
            self.wf(),
        ensures
            b == self.placing(),
    {
        self.pieces_placed[self.current as usize] < PIECES_PER_PLAYER
    }

    pub fn current_player(&self) -> (p: u8)
        ensures
            p == self.current,
    {
        self.current
    }

    /// Append the neighbour of `idx` in direction `(dr, dc)` if it is on the board.
    fn push_nbr(&self, out: &mut Vec<u8>, idx: usize, dr: i8, dc: i8)
        requires
            self.wf(),
            idx < self.ncells(),
            -1 <= dr <= 1,
            -1 <= dc <= 1,
        ensures
            final(out)@ == old(out)@ + nbr_at(self.size as int, idx as int, dr as int, dc as int),
    {
        let s = self.size;
        proof {
            lemma_nbr(s as int, idx as int, dr as int, dc as int);
            vstd::arithmetic::div_mod::lemma_div_pos_is_pos(idx as int, s as int);
            vstd::arithmetic::div_mod::lemma_mod_pos_bound(idx as int, s as int);
            vstd::arithmetic::div_mod::lemma_div_basics_5(idx as int, s as int);
            assert(s * s <= 49) by (nonlinear_arith)
                requires
                    1 <= s <= 7,
            ;
            assert(idx / s <= idx);
        }
        let r = (idx / s) as i64 + dr as i64;
        let c = (idx % s) as i64 + dc as i64;
        if 0 <= r && r < s as i64 && 0 <= c && c < s as i64 {
            proof {
                lemma_cell_in(s as int, r as int, c as int);
                assert(s * s <= 49) by (nonlinear_arith)
                    requires
                        1 <= s <= 7,
                ;
            }
            out.push((r as usize * s + c as usize) as u8);
        }
        proof {
            assert(out@ =~= old(out)@ + nbr_at(s as int, idx as int, dr as int, dc as int));
        }
    }

    /// The up to eight neighbours of `idx`, row by row from the upper left.
    pub fn neighbours(&self, idx: usize) -> (v: Vec<u8>)
        requires
            self.wf(),
            idx < self.ncells(),
        ensures
            v@ == neighbours_spec(self.size as int, idx as int),
    {
        let ghost s = self.size as int;
        let ghost x = idx as int;
        let mut out: Vec<u8> = Vec::new();
        self.push_nbr(&mut out, idx, -1, -1);
        self.push_nbr(&mut out, idx, -1, 0);
        self.push_nbr(&mut out, idx, -1, 1);
        self.push_nbr(&mut out, idx, 0, -1);
        self.push_nbr(&mut out, idx, 0, 1);
        self.push_nbr(&mut out, idx, 1, -1);
        self.push_nbr(&mut out, idx, 1, 0);
        self.push_nbr(&mut out, idx, 1, 1);
        proof {
            assert(out@ =~= neighbours_spec(s, x));
        }
        out
    }
}

proof fn lemma_shapes_len(s: int, diag: bool, k: int)
    ensures
        shapes_upto(s, diag, k).len() <= 5 * (if k > 0 { k } else { 0 }),
    decreases k,
{
    if k > 0 {
        lemma_shapes_len(s, diag, k - 1);
    }
}

impl QuadlineGame {
    /// Every winning shape, anchored cell by cell: row, column, the diagonals when
    /// enabled, square.
    pub fn shapes_exec(&self) -> (v: Vec<(usize, usize, usize, usize)>)
        requires
            self.wf(),
        ensures
            shapes_view(v@) == self.shapes(),
            v@.len() <= 245,
    {
        let s = self.size;
        let n = self.cell_count();
        let diag = self.diagonals;
        let mut out: Vec<(usize, usize, usize, usize)> = Vec::new();
        let mut k: usize = 0;
        while k < n
            invariant
                self.wf(),
                s == self.size,
                diag == self.diagonals,
                n == s * s,
                n <= 49,
                k <= n,
                shapes_view(out@) == shapes_upto(s as int, diag, k as int),
            decreases n - k,
        {
            let r = k / s;
            let c = k % s;
            proof {
                vstd::arithmetic::div_mod::lemma_div_basics_5(k as int, s as int);
                vstd::arithmetic::div_mod::lemma_mod_pos_bound(k as int, s as int);
                assert((r + 3) * s <= 400 && r * s <= 400 && (r + 1) * s <= 400 && (r + 2) * s <= 400) by (nonlinear_arith)
                    requires
                        r <= 48,
                        s <= 7,
                ;
            }
            let ghost before = out@;
            if c + 4 <= s {
                out.push((r * s + c, r * s + c + 1, r * s + c + 2, r * s + c + 3));
            }
            if r + 4 <= s {
                out.push((r * s + c, (r + 1) * s + c, (r + 2) * s + c, (r + 3) * s + c));
            }
            if diag && r + 4 <= s && c + 4 <= s {
                out.push((r * s + c, (r + 1) * s + c + 1, (r + 2) * s + c + 2, (r + 3) * s + c + 3));
            }
            if diag && r + 4 <= s && c >= 3 {
                out.push((r * s + c, (r + 1) * s + c - 1, (r + 2) * s + c - 2, (r + 3) * s + c - 3));
            }
            if r + 1 < s && c + 1 < s {
                out.push((r * s + c, r * s + c + 1, (r + 1) * s + c, (r + 1) * s + c + 1));
            }
            proof {
                assert(shapes_view(out@) =~= shapes_view(before) + shapes_at(s as int, diag, r as int, c as int));
            }
            k += 1;
        }
        proof {
            lemma_shapes_len(s as int, diag, n as int);
        }
        out
    }
}

impl QuadlineGame {
    /// The cells of shape `k` of `sh` lie on the board.
    proof fn lemma_shape_cells(&self, v: Seq<(usize, usize, usize, usize)>, k: int)
        requires
            self.wf(),
            shapes_view(v) == self.shapes(),
            0 <= k < v.len(),
        ensures
            v[k].0 < self.ncells(),
            v[k].1 < self.ncells(),
            v[k].2 < self.ncells(),
            v[k].3 < self.ncells(),
            self.ncells() <= 49,
            self.shapes()[k] == shape_view(v[k]),
    {
        assert(self.size * self.size <= 49) by (nonlinear_arith)
            requires
                1 <= self.size <= 7,
        ;
        assert(shapes_view(v)[k] == shape_view(v[k]));
        lemma_shape_on_board(self.size as int, self.diagonals, self.ncells(), k);
        assert(self.shapes()[k][0] == v[k].0 as int);
        assert(self.shapes()[k][1] == v[k].1 as int);
        assert(self.shapes()[k][2] == v[k].2 as int);
        assert(self.shapes()[k][3] == v[k].3 as int);
    }

    /// The owner of the first shape (in anchoring order) held entirely by one player.
    pub fn winner(&self) -> (w: Option<u8>)
        requires
            self.wf(),
        ensures
            w == self.winner_spec(),
    {
        let shapes = self.shapes_exec();
        let ghost sh = self.shapes();
        let mut k: usize = 0;
        while k < shapes.len()
            invariant
                self.wf(),
                shapes_view(shapes@) == sh,
                sh == self.shapes(),
                k <= shapes@.len(),
                winner_from(self.board@, sh, 0) == winner_from(self.board@, sh, k as int),
            decreases shapes@.len() - k,
        {
            let (a, b, c, d) = shapes[k];
            proof {
                self.lemma_shape_cells(shapes@, k as int);
            }
            match self.board[a] {
                Cell::Player(p) => {
                    let me = Cell::Player(p);
                    if self.board[b] == me && self.board[c] == me && self.board[d] == me {
                        proof {
                            let shk = sh[k as int];
                            assert forall|j: int| 0 <= j < 4 implies #[trigger] self.board@[shk[j]] == Cell::Player(p) by {
                                if j == 0 {
                                } else if j == 1 {
                                } else if j == 2 {
                                } else {
                                }
                            }
                        }
                        return Some(p);
                    }
                    proof {
                        let shk = sh[k as int];
                        if uniform(self.board@, shk, p) {
                            assert(self.board@[shk[1]] == Cell::Player(p));
                            assert(self.board@[shk[2]] == Cell::Player(p));
                            assert(self.board@[shk[3]] == Cell::Player(p));
                        }
                    }
                },
                Cell::Empty => {},
            }
            k += 1;
        }
        None
    }

    /// Drops while the side to move still has pieces in hand, slides afterwards;
    /// the game being over is not considered.
    pub fn gen_moves(&self) -> (v: Vec<QuadMove>)
        requires
            self.wf(),
        ensures
            v@ == self.gen_spec(),
    {
        let n = self.cell_count();
        let mut moves: Vec<QuadMove> = Vec::new();
        if self.in_placement_phase() {
            let mut i: usize = 0;
            while i < n
                invariant
                    self.wf(),
                    n == self.ncells(),
                    n <= 49,
                    i <= n,
                    moves@ == drops_upto(self.board@, i as int),
                decreases n - i,
            {
                if self.board[i] == Cell::Empty {
                    moves.push(QuadMove { from: None, to: i as u8 });
                }
                i += 1;
            }
        } else {
            let me = Cell::Player(self.current);
            let mut from: usize = 0;
            while from < n
                invariant
                    self.wf(),
                    n == self.ncells(),
                    n <= 49,
                    from <= n,
                    me == Cell::Player(self.current),
                    moves@ == slides_upto(self.board@, self.size as int, self.current, from as int),
                decreases n - from,
            {
                if self.board[from] == me {
                    let nbs = self.neighbours(from);
                    let ghost base = moves@;
                    let mut j: usize = 0;
                    while j < nbs.len()
                        invariant
                            self.wf(),
                            n == self.ncells(),
                            n <= 49,
                            from < n,
                            nbs@ == neighbours_spec(self.size as int, from as int),
                            j <= nbs@.len(),
                            moves@ == base + slides_nb(self.board@, nbs@, from as int, j as int),
                        decreases nbs@.len() - j,
                    {
                        let to = nbs[j];
                        proof {
                            lemma_nbs_on_board(self.size as int, from as int, j as int);
                        }
                        if self.board[to as usize] == Cell::Empty {
                            moves.push(QuadMove { from: Some(from as u8), to });
                            proof {
                                assert(moves@ =~= base + slides_nb(self.board@, nbs@, from as int, j + 1));
                            }
                        } else {
                            proof {
                                assert(moves@ =~= base + slides_nb(self.board@, nbs@, from as int, j + 1));
                            }
                        }
                        j += 1;
                    }
                }
                from += 1;
            }
        }
        moves
    }

    /// No moves once a shape is complete or the ply cap is reached.
    pub fn available_moves(&self) -> (v: Vec<QuadMove>)
        requires
            self.wf(),
        ensures
            v@ == self.moves_spec(),
    {
        if self.winner().is_some() || self.ply >= PLY_CAP {
            return Vec::new();
        }
        self.gen_moves()
    }

    /// Drop on `mov.to`, or slide from `mov.from` to `mov.to`; the turn passes.
    pub fn make_move(&mut self, mov: &QuadMove)
        requires
            old(self).wf(),
            (mov.to as int) < old(self).ncells(),
            mov.from matches Some(f) ==> (f as int) < old(self).ncells(),
            mov.from is None ==> old(self).pieces_placed@[old(self).current as int] < 255,
            old(self).ply < u16::MAX,
        ensures
            final(self).wf(),
            final(self).board@ == after_board(old(self).board@, old(self).current, *mov),
            final(self).pieces_placed@ == if mov.from is None {
                old(self).pieces_placed@.update(
                    old(self).current as int,
                    (old(self).pieces_placed@[old(self).current as int] + 1) as u8,
                )
            } else {
                old(self).pieces_placed@
            },
            final(self).ply == old(self).ply + 1,
            final(self).current == 1 - old(self).current,
            final(self).size == old(self).size,
            final(self).diagonals == old(self).diagonals,
    {
        proof {
            assert(self.size * self.size <= 49) by (nonlinear_arith)
                requires
                    1 <= self.size <= 7,
            ;
        }
        let cur = self.current;
        match mov.from {
            None => {
                self.board[mov.to as usize] = Cell::Player(cur);
                self.pieces_placed[cur as usize] = self.pieces_placed[cur as usize] + 1;
            },
            Some(from) => {
                self.board[from as usize] = Cell::Empty;
                self.board[mov.to as usize] = Cell::Player(cur);
            },
        }
        self.ply = self.ply + 1;
        self.current = 1 - self.current;
    }

    pub fn terminal_value(&self) -> (t: Option<Outcome>)
        requires
            self.wf(),
        ensures
            t == self.term_spec(),
    {
        if self.winner().is_some() {
            Some(Outcome::Loss)
        } else if self.ply >= PLY_CAP {
            Some(Outcome::Draw)
        } else if self.gen_moves().len() == 0 {
            Some(Outcome::Draw)
        } else {
            None
        }
    }

    pub fn is_terminal(&self) -> (b: bool)
        requires
            self.wf(),
        ensures
            b == self.term_spec() is Some,
    {
        self.terminal_value().is_some()
    }
}

/// The neighbours of a cell lie on the board.
proof fn lemma_nbs_on_board(s: int, idx: int, j: int)
    requires
        1 <= s <= 7,
        0 <= idx < s * s,
        0 <= j < neighbours_spec(s, idx).len(),
    ensures
        (neighbours_spec(s, idx)[j] as int) < s * s,
{
    lemma_nbr(s, idx, -1, -1);
    lemma_nbr(s, idx, -1, 0);
    lemma_nbr(s, idx, -1, 1);
    lemma_nbr(s, idx, 0, -1);
    lemma_nbr(s, idx, 0, 1);
    lemma_nbr(s, idx, 1, -1);
    lemma_nbr(s, idx, 1, 0);
    lemma_nbr(s, idx, 1, 1);
    let m = s * s;
    let a = nbr_at(s, idx, -1, -1) + nbr_at(s, idx, -1, 0);
    assert(all_below(a, m));
    let a = a + nbr_at(s, idx, -1, 1);
    assert(all_below(a, m));
    let a = a + nbr_at(s, idx, 0, -1);
    assert(all_below(a, m));
    let a = a + nbr_at(s, idx, 0, 1);
    assert(all_below(a, m));
    let a = a + nbr_at(s, idx, 1, -1);
    assert(all_below(a, m));
    let a = a + nbr_at(s, idx, 1, 0);
    assert(all_below(a, m));
    let a = a + nbr_at(s, idx, 1, 1);
    assert(all_below(a, m));
    assert(a =~= neighbours_spec(s, idx));
}

/// Every entry of `q` is below `m`.
pub open spec fn all_below(q: Seq<u8>, m: int) -> bool {
    forall|i: int| 0 <= i < q.len() ==> (#[trigger] q[i] as int) < m
}

/// A cell shown as a space, `X`, `O`, or `?` for any other player.
pub open spec fn cell_char(c: Cell) -> char {
    match c {
        Cell::Empty => ' ',
        Cell::Player(p) => if p == 0 {
            'X'
        } else if p == 1 {
            'O'
        } else {
            '?'
        },
    }
}

/// A drop reads `d<cell>`, a slide `<from>-<to>`.
pub open spec fn move_text(m: QuadMove) -> Seq<char> {
    match m.from {
        None => seq!['d'] + dec(m.to as nat),
        Some(f) => dec(f as nat) + seq!['-'] + dec(m.to as nat),
    }
}

/// The texts of `ms`, joined by commas.
pub open spec fn texts(ms: Seq<QuadMove>) -> Seq<char>
    decreases ms.len(),
{
    if ms.len() == 0 {
        seq![]
    } else if ms.len() == 1 {
        move_text(ms[0])
    } else {
        texts(ms.drop_last()) + seq![','] + move_text(ms.last())
    }
}

/// `i` is the first `-` of `t`.
pub open spec fn first_dash(t: Seq<char>, i: int) -> bool {
    &&& 0 <= i < t.len()
    &&& t[i] == '-'
    &&& forall|j: int| 0 <= j < i ==> t[j] != '-'
}

/// What a move text names: `d` and a cell number is a drop; otherwise two cell
/// numbers around the first `-` are a slide. Numbers are bytes.
pub open spec fn decode_spec(t: Seq<char>) -> Option<QuadMove> {
    if t.len() > 0 && t[0] == 'd' {
        match parse_uint(t.drop_first(), 255) {
            Some(v) => Some(QuadMove { from: None, to: v as u8 }),
            None => None,
        }
    } else if exists|i: int| first_dash(t, i) {
        let i = choose|i: int| first_dash(t, i);
        match (parse_uint(t.subrange(0, i), 255), parse_uint(t.subrange(i + 1, t.len() as int), 255)) {
            (Some(a), Some(b)) => Some(QuadMove { from: Some(a as u8), to: b as u8 }),
            _ => None,
        }
    } else {
        None
    }
}

/// The table of a new game as the front end asks for it: the side clamped to 4..=7,
/// diagonals on for any nonzero flag.
pub fn settings(size: u32, diagonals: u32) -> (r: (usize, bool))
    ensures
        r.0 == (if size < 4 { 4 } else if size > 7 { 7 } else { size }),
        r.1 == (diagonals != 0),
{
    let k: usize = if size < 4 { 4 } else if size > 7 { 7 } else { size as usize };
    (k, diagonals != 0)
}

/// Parse a move text.
pub fn decode(mov: &str) -> (m: Option<QuadMove>)
    ensures
        m == decode_spec(mov@),
{
    let cs = chars_of(mov);
    let n = cs.len();
    if n > 0 && cs[0] == 'd' {
        proof {
            assert(cs@.subrange(1, n as int) =~= mov@.drop_first());
        }
        return match parse_uint_range(&cs, 1, n, 255) {
            Some(v) => Some(QuadMove { from: None, to: v as u8 }),
            None => None,
        };
    }
    let mut i: usize = 0;
    while i < n && cs[i] != '-'
        invariant
            cs@ == mov@,
            n == cs@.len(),
            i <= n,
            forall|j: int| 0 <= j < i ==> cs@[j] != '-',
        decreases n - i,
    {
        i += 1;
    }
    if i == n {
        proof {
            assert forall|k: int| !first_dash(mov@, k) by {
                if first_dash(mov@, k) {
                    assert(mov@[k] == '-');
                }
            }
        }
        return None;
    }
    proof {
        assert(first_dash(mov@, i as int));
        assert forall|k: int| first_dash(mov@, k) implies k == i by {
            if k < i {
                assert(cs@[k] != '-');
            }
            if k > i {
                assert(mov@[i as int] == '-');
            }
        }
    }
    let a = parse_uint_range(&cs, 0, i, 255);
    let b = parse_uint_range(&cs, i + 1, n, 255);
    match (a, b) {
        (Some(x), Some(y)) => Some(QuadMove { from: Some(x as u8), to: y as u8 }),
        _ => None,
    }
}

impl QuadlineGame {
    /// How good the board is for `player`: each shape held only by `player` adds the
    /// square of its pieces there, each held only by others subtracts the square of
    /// theirs.
    pub fn evaluate_for(&self, player: u8) -> (v: i64)
        requires
            self.wf(),
        ensures
            v == eval_upto(self.board@, self.shapes(), player, self.shapes().len() as int),
    {
        let shapes = self.shapes_exec();
        let ghost sh = self.shapes();
        let mut score: i64 = 0;
        let mut k: usize = 0;
        while k < shapes.len()
            invariant
                self.wf(),
                shapes_view(shapes@) == sh,
                sh == self.shapes(),
                shapes@.len() <= 245,
                k <= shapes@.len(),
                score == eval_upto(self.board@, sh, player, k as int),
                -16 * k <= score <= 16 * k,
            decreases shapes@.len() - k,
        {
            let (a, b, c, d) = shapes[k];
            proof {
                self.lemma_shape_cells(shapes@, k as int);
            }
            let (m0, t0) = cell_counts(self.board[a], player);
            let (m1, t1) = cell_counts(self.board[b], player);
            let (m2, t2) = cell_counts(self.board[c], player);
            let (m3, t3) = cell_counts(self.board[d], player);
            let mine = m0 + m1 + m2 + m3;
            let theirs = t0 + t1 + t2 + t3;
            proof {
                let shk = sh[k as int];
                reveal_with_fuel(count_in, 5);
                assert(count_in(self.board@, shk, player, true, 4) == mine);
                assert(count_in(self.board@, shk, player, false, 4) == theirs);
            }
            assert(0 <= mine * mine <= 16 && 0 <= theirs * theirs <= 16) by (nonlinear_arith)
                requires
                    0 <= mine <= 4,
                    0 <= theirs <= 4,
            ;
            if theirs == 0 {
                score = score + mine * mine;
            } else if mine == 0 {
                score = score - theirs * theirs;
            }
            k += 1;
        }
        score
    }

    /// One character per cell: space, `X`, `O`.
    pub fn board_string(&self) -> (s: String)
        requires
            self.wf(),
        ensures
            s@ == Seq::new(self.ncells() as nat, |i: int| cell_char(self.board@[i])),
    {
        let n = self.cell_count();
        let mut s = String::new();
        let mut i: usize = 0;
        while i < n
            invariant
                self.wf(),
                n == self.ncells(),
                n <= 49,
                i <= n,
                s@ == Seq::new(i as nat, |j: int| cell_char(self.board@[j])),
            decreases n - i,
        {
            let ch = match self.board[i] {
                Cell::Empty => ' ',
                Cell::Player(p) => if p == 0 {
                    'X'
                } else if p == 1 {
                    'O'
                } else {
                    '?'
                },
            };
            push_char(&mut s, ch);
            i += 1;
            assert(s@ =~= Seq::new(i as nat, |j: int| cell_char(self.board@[j])));
        }
        s
    }

    /// The winner counted from 1, `Draw` for another finished game, empty while it runs.
    pub fn result_string(&self) -> (s: String)
        requires
            self.wf(),
        ensures
            s@ == (match self.winner_spec() {
                Some(w) => dec((w + 1) as nat),
                None => if self.term_spec() is Some {
                    seq!['D', 'r', 'a', 'w']
                } else {
                    Seq::<char>::empty()
                },
            }),
    {
        let mut s = String::new();
        match self.winner() {
            Some(w) => push_dec(&mut s, w as u64 + 1),
            None => {
                if self.terminal_value().is_some() {
                    push_str(&mut s, "Draw");
                    proof {
                        reveal_strlit("Draw");
                    }
                }
            },
        }
        s
    }

    /// The legal moves as texts, joined by commas.
    pub fn legal_moves_string(&self) -> (s: String)
        requires
            self.wf(),
        ensures
            s@ == texts(self.moves_spec()),
    {
        let ms = self.available_moves();
        let mut s = String::new();
        let mut i: usize = 0;
        while i < ms.len()
            invariant
                i <= ms@.len(),
                s@ == texts(ms@.take(i as int)),
            decreases ms@.len() - i,
        {
            if i > 0 {
                push_char(&mut s, ',');
            }
            let m = ms[i];
            match m.from {
                None => {
                    push_char(&mut s, 'd');
                    push_dec(&mut s, m.to as u64);
                },
                Some(f) => {
                    push_dec(&mut s, f as u64);
                    push_char(&mut s, '-');
                    push_dec(&mut s, m.to as u64);
                },
            }
            proof {
                let t = ms@.take(i + 1);
                assert(t.drop_last() =~= ms@.take(i as int));
                assert(t.last() == ms@[i as int]);
                if i == 0 {
                    assert(texts(ms@.take(0)) =~= Seq::<char>::empty());
                }
                assert(s@ =~= texts(t));
            }
            i += 1;
        }
        proof {
            assert(ms@.take(ms@.len() as int) =~= ms@);
        }
        s
    }

    /// Play the move that `mov` names if it is legal; false, leaving the game
    /// unchanged, otherwise.
    pub fn apply_text(&mut self, mov: &str) -> (ok: bool)
        requires
            old(self).wf(),
        ensures
            final(self).wf(),
            ok == (decode_spec(mov@) matches Some(m) && old(self).moves_spec().contains(m)),
            !ok ==> *final(self) == *old(self),
            ok ==> final(self).board@ == after_board(old(self).board@, old(self).current, decode_spec(mov@)->0)
                && final(self).current == 1 - old(self).current && final(self).ply == old(self).ply + 1,
            ok ==> final(self).size == old(self).size && final(self).diagonals == old(self).diagonals,
            ok ==> final(self).pieces_placed@ == if decode_spec(mov@)->0.from is None {
                old(self).pieces_placed@.update(
                    old(self).current as int,
                    (old(self).pieces_placed@[old(self).current as int] + 1) as u8,
                )
            } else {
                old(self).pieces_placed@
            },
    {
        let m = match decode(mov) {
            Some(m) => m,
            None => {
                return false;
            },
        };
        let moves = self.available_moves();
        let mut found = false;
        let mut i: usize = 0;
        while i < moves.len()
            invariant
                i <= moves@.len(),
                found == exists|j: int| 0 <= j < i && moves@[j] == m,
            decreases moves@.len() - i,
        {
            if moves[i] == m {
                found = true;
            }
            i += 1;
        }
        if !found {
            return false;
        }
        proof {
            let j = choose|j: int| 0 <= j < moves@.len() && moves@[j] == m;
            lemma_legal_move_in_range(*self, j);
        }
        self.make_move(&m);
        true
    }
}

/// The pieces counted for `player` in one cell: its own, and others'.
fn cell_counts(c: Cell, player: u8) -> (r: (i64, i64))
    ensures
        r.0 == (match c {
            Cell::Player(p) => if p == player { 1int } else { 0 },
            Cell::Empty => 0,
        }),
        r.1 == (match c {
            Cell::Player(p) => if p != player { 1int } else { 0 },
            Cell::Empty => 0,
        }),
{
    match c {
        Cell::Player(p) => if p == player {
            (1, 0)
        } else {
            (0, 1)
        },
        Cell::Empty => (0, 0),
    }
}

proof fn lemma_drops_in_range(b: Seq<Cell>, k: int, j: int)
    requires
        0 <= k <= 49,
        0 <= j < drops_upto(b, k).len(),
    ensures
        drops_upto(b, k)[j].from is None,
        (drops_upto(b, k)[j].to as int) < k,
        b[drops_upto(b, k)[j].to as int] == Cell::Empty,
    decreases k,
{
    if j < drops_upto(b, k - 1).len() {
        lemma_drops_in_range(b, k - 1, j);
    }
}

proof fn lemma_slides_nb_in_range(b: Seq<Cell>, s: int, from: int, j: int, i: int)
    requires
        1 <= s <= 7,
        0 <= from < s * s,
        0 <= j <= neighbours_spec(s, from).len(),
        0 <= i < slides_nb(b, neighbours_spec(s, from), from, j).len(),
    ensures
        slides_nb(b, neighbours_spec(s, from), from, j)[i].from == Some(from as u8),
        (slides_nb(b, neighbours_spec(s, from), from, j)[i].to as int) < s * s,
        b[slides_nb(b, neighbours_spec(s, from), from, j)[i].to as int] == Cell::Empty,
    decreases j,
{
    if i < slides_nb(b, neighbours_spec(s, from), from, j - 1).len() {
        lemma_slides_nb_in_range(b, s, from, j - 1, i);
    } else {
        lemma_nbs_on_board(s, from, j - 1);
    }
}

proof fn lemma_slides_in_range(b: Seq<Cell>, s: int, me: u8, k: int, i: int)
    requires
        1 <= s <= 7,
        0 <= k <= s * s,
        0 <= i < slides_upto(b, s, me, k).len(),
    ensures
        slides_upto(b, s, me, k)[i].from matches Some(f) && (f as int) < k && b[f as int] == Cell::Player(me),
        (slides_upto(b, s, me, k)[i].to as int) < s * s,
        b[slides_upto(b, s, me, k)[i].to as int] == Cell::Empty,
    decreases k,
{
    let prev = slides_upto(b, s, me, k - 1);
    if i < prev.len() {
        lemma_slides_in_range(b, s, me, k - 1, i);
    } else {
        assert(s * s <= 49) by (nonlinear_arith)
            requires
                1 <= s <= 7,
        ;
        let nb = neighbours_spec(s, k - 1);
        lemma_slides_nb_in_range(b, s, k - 1, nb.len() as int, i - prev.len());
    }
}

/// A legal move names cells of the board; a drop comes while the mover has
/// pieces in hand, before the ply cap.
proof fn lemma_legal_move_in_range(g: QuadlineGame, j: int)
    requires
        g.wf(),
        0 <= j < g.moves_spec().len(),
    ensures
        (g.moves_spec()[j].to as int) < g.ncells(),
        g.moves_spec()[j].from matches Some(f) ==> (f as int) < g.ncells(),
        g.moves_spec()[j].from is None ==> g.pieces_placed@[g.current as int] < 255,
        g.ply < u16::MAX,
{
    assert(g.ncells() <= 49) by (nonlinear_arith)
        requires
            1 <= g.size <= 7,
            g.ncells() == g.size * g.size,
    ;
    if g.placing() {
        lemma_drops_in_range(g.board@, g.ncells(), j);
    } else {
        lemma_slides_in_range(g.board@, g.size as int, g.current, g.ncells(), j);
    }
}

proof fn lemma_cells_update(b: Seq<Cell>, i: int, v: Cell, c: Cell, k: int)
    requires
        0 <= i < b.len(),
        0 <= k <= b.len(),
    ensures
        cells_of(b.update(i, v), c, k) == cells_of(b, c, k) - (if i < k && b[i] == c { 1int } else { 0 }) + (if i < k
            && v == c { 1int } else { 0 }),
    decreases k,
{
    if k > 0 {
        lemma_cells_update(b, i, v, c, k - 1);
    }
}

/// Each player keeps on the board exactly the pieces it has dropped: a legal drop
/// adds one piece of the mover, a legal slide moves one, and nothing else changes.
pub proof fn lemma_pieces_match_drops(g: QuadlineGame, m: QuadMove, p: u8)
    requires
        g.wf(),
        p < 2,
        g.moves_spec().contains(m),
        cells_of(g.board@, Cell::Player(p), g.ncells()) == g.pieces_placed@[p as int],
    ensures
        cells_of(after_board(g.board@, g.current, m), Cell::Player(p), g.ncells()) == g.pieces_placed@[p as int] + (
        if m.from is None && p == g.current {
            1int
        } else {
            0
        }),
{
    let j = choose|j: int| 0 <= j < g.moves_spec().len() && g.moves_spec()[j] == m;
    lemma_legal_move_in_range(g, j);
    assert(g.ncells() <= 49) by (nonlinear_arith)
        requires
            1 <= g.size <= 7,
            g.ncells() == g.size * g.size,
    ;
    let b = g.board@;
    let n = g.ncells();
    let c = Cell::Player(p);
    if g.placing() {
        lemma_drops_in_range(b, n, j);
        lemma_cells_update(b, m.to as int, Cell::Player(g.current), c, n);
    } else {
        lemma_slides_in_range(b, g.size as int, g.current, n, j);
        let f = m.from->0 as int;
        let b1 = b.update(f, Cell::Empty);
        lemma_cells_update(b, f, Cell::Empty, c, n);
        lemma_cells_update(b1, m.to as int, Cell::Player(g.current), c, n);
    }
}

/// Every slide goes from a piece of the side to move to an adjacent empty cell.
pub proof fn lemma_slides_are_adjacent(g: QuadlineGame, m: QuadMove)
    requires
        g.wf(),
        g.moves_spec().contains(m),
        m.from is Some,
    ensures
        g.board@[m.from->0 as int] == Cell::Player(g.current),
        g.board@[m.to as int] == Cell::Empty,
        neighbours_spec(g.size as int, m.from->0 as int).contains(m.to),
{
    let j = choose|j: int| 0 <= j < g.moves_spec().len() && g.moves_spec()[j] == m;
    assert(g.ncells() <= 49) by (nonlinear_arith)
        requires
            1 <= g.size <= 7,
            g.ncells() == g.size * g.size,
    ;
    if g.placing() {
        lemma_drops_in_range(g.board@, g.ncells(), j);
    } else {
        lemma_slides_adjacent(g.board@, g.size as int, g.current, g.ncells(), j);
        lemma_slides_in_range(g.board@, g.size as int, g.current, g.ncells(), j);
    }
}

proof fn lemma_slides_adjacent(b: Seq<Cell>, s: int, me: u8, k: int, i: int)
    requires
        1 <= s <= 7,
        0 <= k <= s * s,
        0 <= i < slides_upto(b, s, me, k).len(),
    ensures
        slides_upto(b, s, me, k)[i].from is Some,
        neighbours_spec(s, slides_upto(b, s, me, k)[i].from->0 as int).contains(slides_upto(b, s, me, k)[i].to),
    decreases k,
{
    let prev = slides_upto(b, s, me, k - 1);
    if i < prev.len() {
        lemma_slides_adjacent(b, s, me, k - 1, i);
    } else {
        let nb = neighbours_spec(s, k - 1);
        lemma_slides_nb_adjacent(b, nb, k - 1, nb.len() as int, i - prev.len());
        assert(s * s <= 49) by (nonlinear_arith)
            requires
                1 <= s <= 7,
        ;
        assert(((k - 1) as u8) as int == k - 1);
    }
}

proof fn lemma_slides_nb_adjacent(b: Seq<Cell>, nbs: Seq<u8>, from: int, j: int, i: int)
    requires
        0 <= j <= nbs.len(),
        0 <= i < slides_nb(b, nbs, from, j).len(),
    ensures
        slides_nb(b, nbs, from, j)[i].from == Some(from as u8),
        nbs.contains(slides_nb(b, nbs, from, j)[i].to),
    decreases j,
{
    if i < slides_nb(b, nbs, from, j - 1).len() {
        lemma_slides_nb_adjacent(b, nbs, from, j - 1, i);
    } else {
        assert(nbs[j - 1] == slides_nb(b, nbs, from, j)[i].to);
    }
}


/// The one-cell list `nbr_at` holds `x` exactly when `x` is that on-board neighbour.
proof fn lemma_nbr_at(s: int, idx: int, dr: int, dc: int, r2: int, c2: int)
    requires
        1 <= s <= 16,
        0 <= idx < s * s,
        0 <= r2 < s,
        0 <= c2 < s,
    ensures
        nbr_at(s, idx, dr, dc).contains((r2 * s + c2) as u8) <==> (r2 == idx / s + dr && c2 == idx % s + dc),
{
    crate::capturego::lemma_cell_arith(s, s, idx);
    let (r, c) = (idx / s + dr, idx % s + dc);
    crate::gridlib::lemma_cell_index(s, s, r2, c2);
    assert(s * s <= 256) by (nonlinear_arith)
        requires
            1 <= s <= 16,
    ;
    if 0 <= r < s && 0 <= c < s {
        crate::gridlib::lemma_cell_index(s, s, r, c);
        assert(nbr_at(s, idx, dr, dc)[0] == (r * s + c) as u8);
        if nbr_at(s, idx, dr, dc).contains((r2 * s + c2) as u8) {
            assert(r * s + c == r2 * s + c2);
            vstd::arithmetic::div_mod::lemma_fundamental_div_mod_converse(r2 * s + c2, s, r, c);
            vstd::arithmetic::div_mod::lemma_fundamental_div_mod_converse(r2 * s + c2, s, r2, c2);
        }
    }
}

/// The neighbours of a cell are exactly the on-board cells one step away in any of the
/// eight directions, diagonals included.
pub proof fn lemma_neighbours_exact(s: int, idx: int, r2: int, c2: int)
    requires
        1 <= s <= 16,
        0 <= idx < s * s,
        0 <= r2 < s,
        0 <= c2 < s,
    ensures
        neighbours_spec(s, idx).contains((r2 * s + c2) as u8) <==> ({
            let (dr, dc) = (r2 - idx / s, c2 - idx % s);
            -1 <= dr <= 1 && -1 <= dc <= 1 && (dr != 0 || dc != 0)
        }),
{
    let x = (r2 * s + c2) as u8;
    let p = seq![
        nbr_at(s, idx, -1, -1),
        nbr_at(s, idx, -1, 0),
        nbr_at(s, idx, -1, 1),
        nbr_at(s, idx, 0, -1),
        nbr_at(s, idx, 0, 1),
        nbr_at(s, idx, 1, -1),
        nbr_at(s, idx, 1, 0),
        nbr_at(s, idx, 1, 1),
    ];
    lemma_nbr_at(s, idx, -1, -1, r2, c2);
    lemma_nbr_at(s, idx, -1, 0, r2, c2);
    lemma_nbr_at(s, idx, -1, 1, r2, c2);
    lemma_nbr_at(s, idx, 0, -1, r2, c2);
    lemma_nbr_at(s, idx, 0, 1, r2, c2);
    lemma_nbr_at(s, idx, 1, -1, r2, c2);
    lemma_nbr_at(s, idx, 1, 0, r2, c2);
    lemma_nbr_at(s, idx, 1, 1, r2, c2);
    let all = p[0] + p[1] + p[2] + p[3] + p[4] + p[5] + p[6] + p[7];
    assert(neighbours_spec(s, idx) == all);
    assert(all.contains(x) <==> (p[0].contains(x) || p[1].contains(x) || p[2].contains(x) || p[3].contains(x) || p[4].contains(x)
        || p[5].contains(x) || p[6].contains(x) || p[7].contains(x))) by {
        lemma_concat_contains(p[0], p[1], x);
        lemma_concat_contains(p[0] + p[1], p[2], x);
        lemma_concat_contains(p[0] + p[1] + p[2], p[3], x);
        lemma_concat_contains(p[0] + p[1] + p[2] + p[3], p[4], x);
        lemma_concat_contains(p[0] + p[1] + p[2] + p[3] + p[4], p[5], x);
        lemma_concat_contains(p[0] + p[1] + p[2] + p[3] + p[4] + p[5], p[6], x);
        lemma_concat_contains(p[0] + p[1] + p[2] + p[3] + p[4] + p[5] + p[6], p[7], x);
    }
}

proof fn lemma_concat_contains(a: Seq<u8>, b: Seq<u8>, x: u8)
    ensures
        (a + b).contains(x) <==> a.contains(x) || b.contains(x),
{
    if (a + b).contains(x) {
        let j = choose|j: int| 0 <= j < (a + b).len() && (a + b)[j] == x;
        if j < a.len() {
            assert(a[j] == x);
        } else {
            assert(b[j - a.len()] == x);
        }
    }
    if a.contains(x) {
        let j = choose|j: int| 0 <= j < a.len() && a[j] == x;
        assert((a + b)[j] == x);
    }
    if b.contains(x) {
        let j = choose|j: int| 0 <= j < b.len() && b[j] == x;
        assert((a + b)[a.len() + j] == x);
    }
}


/// A shape whose four cells hold one player is found from any earlier position on.
proof fn lemma_winner_from_some(b: Seq<Cell>, shapes: Seq<Seq<int>>, k: int, j: int, p: u8)
    requires
        0 <= k <= j < shapes.len(),
        uniform(b, shapes[j], p),
    ensures
        winner_from(b, shapes, k) is Some,
    decreases j - k,
{
    if k < j {
        match b[shapes[k][0]] {
            Cell::Player(q) => {
                if !uniform(b, shapes[k], q) {
                    lemma_winner_from_some(b, shapes, k + 1, j, p);
                }
            },
            Cell::Empty => {
                lemma_winner_from_some(b, shapes, k + 1, j, p);
            },
        }
    } else {
        assert(b[shapes[k][0]] == Cell::Player(p));
    }
}

/// The shapes anchored below `k` include those anchored at each earlier cell.
proof fn lemma_shapes_upto_has(s: int, diag: bool, k: int, a: int, sh: Seq<int>)
    requires
        s >= 1,
        0 <= a < k,
        shapes_at(s, diag, a / s, a % s).contains(sh),
    ensures
        shapes_upto(s, diag, k).contains(sh),
    decreases k,
{
    let prev = shapes_upto(s, diag, k - 1);
    let last = shapes_at(s, diag, (k - 1) / s, (k - 1) % s);
    if a < k - 1 {
        lemma_shapes_upto_has(s, diag, k - 1, a, sh);
        let x = choose|x: int| 0 <= x < prev.len() && prev[x] == sh;
        assert((prev + last)[x] == sh);
    } else {
        let x = choose|x: int| 0 <= x < last.len() && last[x] == sh;
        assert((prev + last)[prev.len() + x] == sh);
    }
}

impl QuadlineGame {
    /// Four in a row wins in every orientation the variant allows: a row, a column, and,
    /// with diagonals on, either diagonal. When the four cells from `(r, c)` along such
    /// a line all hold one player's pieces, the game has a winner.
    pub proof fn lemma_line_of_four_wins(&self, r: int, c: int, dr: int, dc: int, p: u8)
        requires
            self.wf(),
            (dr == 0 && dc == 1) || (dr == 1 && dc == 0) || (self.diagonals && dr == 1 && (dc == 1 || dc == -1)),
            0 <= r < self.size,
            0 <= c < self.size,
            0 <= r + 3 * dr < self.size,
            0 <= c + 3 * dc < self.size,
            self.board@[r * self.size + c] == Cell::Player(p),
            self.board@[(r + dr) * self.size + (c + dc)] == Cell::Player(p),
            self.board@[(r + 2 * dr) * self.size + (c + 2 * dc)] == Cell::Player(p),
            self.board@[(r + 3 * dr) * self.size + (c + 3 * dc)] == Cell::Player(p),
        ensures
            self.winner_spec() is Some,
    {
        let s = self.size as int;
        let a = r * s + c;
        crate::gridlib::lemma_cell_index(s, s, r, c);
        vstd::arithmetic::div_mod::lemma_fundamental_div_mod_converse(a, s, r, c);
        assert((r + 1) * s == r * s + s && (r + 2) * s == r * s + 2 * s && (r + 3) * s == r * s + 3 * s) by (nonlinear_arith);
        let sh = if dr == 0 {
            seq![r * s + c, r * s + c + 1, r * s + c + 2, r * s + c + 3]
        } else if dc == 0 {
            seq![r * s + c, (r + 1) * s + c, (r + 2) * s + c, (r + 3) * s + c]
        } else if dc == 1 {
            seq![r * s + c, (r + 1) * s + c + 1, (r + 2) * s + c + 2, (r + 3) * s + c + 3]
        } else {
            seq![r * s + c, (r + 1) * s + c - 1, (r + 2) * s + c - 2, (r + 3) * s + c - 3]
        };
        let p0 = if c + 4 <= s { seq![seq![r * s + c, r * s + c + 1, r * s + c + 2, r * s + c + 3]] } else { seq![] };
        let p1 = if r + 4 <= s { seq![seq![r * s + c, (r + 1) * s + c, (r + 2) * s + c, (r + 3) * s + c]] } else { seq![] };
        let p2 = if self.diagonals && r + 4 <= s && c + 4 <= s {
            seq![seq![r * s + c, (r + 1) * s + c + 1, (r + 2) * s + c + 2, (r + 3) * s + c + 3]]
        } else {
            seq![]
        };
        let p3 = if self.diagonals && r + 4 <= s && c >= 3 {
            seq![seq![r * s + c, (r + 1) * s + c - 1, (r + 2) * s + c - 2, (r + 3) * s + c - 3]]
        } else {
            seq![]
        };
        let p4 = if r + 1 < s && c + 1 < s {
            seq![seq![r * s + c, r * s + c + 1, (r + 1) * s + c, (r + 1) * s + c + 1]]
        } else {
            seq![]
        };
        assert(shapes_at(s, self.diagonals, r, c) == p0 + p1 + p2 + p3 + p4);
        let all = p0 + p1 + p2 + p3 + p4;
        if dr == 0 {
            assert(all[0] == sh);
        } else if dc == 0 {
            assert(all[p0.len() as int] == sh);
        } else if dc == 1 {
            assert(all[(p0.len() + p1.len()) as int] == sh);
        } else {
            assert(all[(p0.len() + p1.len() + p2.len()) as int] == sh);
        }
        lemma_shapes_upto_has(s, self.diagonals, s * s, a, sh);
        let shapes = self.shapes();
        let j = choose|j: int| 0 <= j < shapes.len() && shapes[j] == sh;
        assert(uniform(self.board@, sh, p));
        lemma_winner_from_some(self.board@, shapes, 0, j, p);
    }
}

} // verus!
