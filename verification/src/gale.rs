//! Gale, the grid form of the Shannon switching game. Red builds bridges between the
//! dots of an `n`-row, `n + 1`-column grid to join its left and right sides; Gold
//! builds them on the offset `n + 1`-row, `n`-column grid to join top and bottom.
//! Every Red bridge crosses exactly one Gold bridge, so a move claims a crossing
//! point: crossing `r * n + c` (type H) carries Red's horizontal bridge from dot
//! `(r, c)` and Gold's vertical one from dot `(r, c)`; crossing `n * n + r * (n - 1) + c`
//! (type V) carries Red's vertical bridge below dot `(r, c + 1)` and Gold's horizontal
//! one right of dot `(r + 1, c)`. An optional pie rule lets the second player answer
//! the opening bridge by taking its mirror image across the diagonal.
use vstd::prelude::*;
use crate::outcome::Outcome;
use crate::text::{push_char, push_str, push_dec, dec, join_nums, chars_of, chars_eq, parse_uint, parse_uint_range};

verus! {

/// The move that takes the pie (swap) offer.
pub const SWAP: u16 = 65535;

/// Number of crossings on a board with `n` dots per side.
pub open spec fn ncross(n: int) -> int {
    2 * n * n - 2 * n + 1
}

/// Number of dots of either player's grid.
pub open spec fn dots(n: int) -> int {
    n * (n + 1)
}

/// Crossing `idx` as (is type V, row, column).
pub open spec fn decode(n: int, idx: int) -> (bool, int, int) {
    if idx < n * n {
        (false, idx / n, idx % n)
    } else {
        let j = idx - n * n;
        (true, j / (n - 1), j % (n - 1))
    }
}

/// The two dots that crossing `idx` joins when player `pl` claims it (0 Red, 1 Gold).
pub open spec fn edge(n: int, pl: int, idx: int) -> (int, int) {
    let (v, r, c) = decode(n, idx);
    if pl == 0 {
        if !v {
            (r * (n + 1) + c, r * (n + 1) + c + 1)
        } else {
            (r * (n + 1) + c + 1, (r + 1) * (n + 1) + c + 1)
        }
    } else {
        if !v {
            (r * n + c, (r + 1) * n + c)
        } else {
            ((r + 1) * n + c, (r + 1) * n + c + 1)
        }
    }
}

/// Dot `d` of player `pl` lies on that player's low goal side (`side == 0`: Red's
/// left column, Gold's top row) or high goal side (`side == 1`).
pub open spec fn on_side(n: int, pl: int, side: int, d: int) -> bool {
    if pl == 0 {
        d % (n + 1) == (if side == 0 { 0 } else { n })
    } else {
        d / n == (if side == 0 { 0 } else { n })
    }
}

/// The mirror image of crossing `idx` across the board's diagonal.
pub open spec fn transpose_spec(n: int, idx: int) -> int {
    let (v, r, c) = decode(n, idx);
    if !v {
        c * n + r
    } else {
        n * n + c * (n - 1) + r
    }
}

/// A bridge of `pl` on board `cross` joins dots `a` and `b`.
pub open spec fn linked(cross: Seq<i8>, n: int, pl: int, a: int, b: int) -> bool {
    exists|i: int|
        0 <= i < cross.len() && cross[i] == pl && ((#[trigger] edge(n, pl, i)) == (a, b) || edge(n, pl, i) == (b, a))
}

/// `p` walks along bridges of `pl`.
pub open spec fn is_walk(cross: Seq<i8>, n: int, pl: int, p: Seq<int>) -> bool {
    &&& p.len() >= 1
    &&& forall|i: int| 0 <= i < p.len() - 1 ==> #[trigger] linked(cross, n, pl, p[i], p[i + 1])
}

/// Dot `d` is joined by `pl`'s bridges to a dot of `pl`'s goal side `side`.
pub open spec fn reaches(cross: Seq<i8>, n: int, pl: int, side: int, d: int) -> bool {
    exists|p: Seq<int>|
        #[trigger] is_walk(cross, n, pl, p) && 0 <= p[0] < dots(n) && on_side(n, pl, side, p[0]) && p[p.len() - 1] == d
}

/// Player `pl`'s bridges join its two goal sides.
pub open spec fn connected(cross: Seq<i8>, n: int, pl: int) -> bool {
    exists|d: int| 0 <= d < dots(n) && on_side(n, pl, 1, d) && #[trigger] reaches(cross, n, pl, 0, d)
}

/// Crossing `idx` lies on `pl`'s winning bridge: it is `pl`'s, and its bridge belongs
/// to a chain of bridges that touches both goal sides.
pub open spec fn on_bridge(cross: Seq<i8>, n: int, pl: int, idx: int) -> bool {
    &&& cross[idx] == pl
    &&& reaches(cross, n, pl, 0, edge(n, pl, idx).0)
    &&& reaches(cross, n, pl, 1, edge(n, pl, idx).0)
}

/// Crossing `idx` decoded: its row and column lie in range and encode it back.
pub proof fn lemma_decode(n: int, idx: int)
    requires
        1 <= n <= 7,
        0 <= idx < ncross(n),
    ensures
        !decode(n, idx).0 ==> 0 <= decode(n, idx).1 < n && 0 <= decode(n, idx).2 < n && idx == decode(n, idx).1 * n
            + decode(n, idx).2,
        decode(n, idx).0 ==> n >= 2 && 0 <= decode(n, idx).1 < n - 1 && 0 <= decode(n, idx).2 < n - 1 && idx == n * n
            + decode(n, idx).1 * (n - 1) + decode(n, idx).2,
{
    if idx < n * n {
        vstd::arithmetic::div_mod::lemma_fundamental_div_mod(idx, n);
        vstd::arithmetic::div_mod::lemma_mod_pos_bound(idx, n);
        vstd::arithmetic::div_mod::lemma_div_pos_is_pos(idx, n);
        vstd::arithmetic::div_mod::lemma_div_is_ordered(idx, n * n - 1, n);
        assert((n * n - 1) / n < n) by {
            vstd::arithmetic::div_mod::lemma_div_by_multiple_is_strongly_ordered(n * n - 1, n * n, n, n);
            vstd::arithmetic::div_mod::lemma_div_by_multiple(n, n);
        }
        assert(idx == (idx / n) * n + idx % n) by (nonlinear_arith)
            requires
                idx == n * (idx / n) + idx % n,
        ;
    } else {
        let j = idx - n * n;
        assert(j < (n - 1) * (n - 1)) by (nonlinear_arith)
            requires
                j == idx - n * n,
                idx < 2 * n * n - 2 * n + 1,
        ;
        assert(n >= 2) by (nonlinear_arith)
            requires
                j >= 0,
                j < (n - 1) * (n - 1),
                n >= 1,
        ;
        let m = n - 1;
        vstd::arithmetic::div_mod::lemma_fundamental_div_mod(j, m);
        vstd::arithmetic::div_mod::lemma_mod_pos_bound(j, m);
        vstd::arithmetic::div_mod::lemma_div_pos_is_pos(j, m);
        vstd::arithmetic::div_mod::lemma_div_is_ordered(j, m * m - 1, m);
        assert((m * m - 1) / m < m) by {
            vstd::arithmetic::div_mod::lemma_div_by_multiple_is_strongly_ordered(m * m - 1, m * m, m, m);
            vstd::arithmetic::div_mod::lemma_div_by_multiple(m, m);
        }
        assert(j == (j / m) * m + j % m) by (nonlinear_arith)
            requires
                j == m * (j / m) + j % m,
        ;
    }
}

/// The dots a crossing's bridge joins lie on the player's grid.
pub proof fn lemma_edge_on_grid(n: int, pl: int, idx: int)
    requires
        1 <= n <= 7,
        0 <= idx < ncross(n),
    ensures
        0 <= edge(n, pl, idx).0 < dots(n),
        0 <= edge(n, pl, idx).1 < dots(n),
{
    lemma_decode(n, idx);
    let (v, r, c) = decode(n, idx);
    assert(dots(n) == n * (n + 1));
    if pl == 0 {
        if !v {
            assert(edge(n, pl, idx) == (r * (n + 1) + c, r * (n + 1) + c + 1));
            assert(0 <= r * (n + 1) + c && r * (n + 1) + c + 1 < n * (n + 1)) by (nonlinear_arith)
                requires
                    0 <= r < n,
                    0 <= c < n,
            ;
        } else {
            assert(edge(n, pl, idx) == (r * (n + 1) + c + 1, (r + 1) * (n + 1) + c + 1));
            assert(0 <= r * (n + 1) + c + 1 < n * (n + 1) && (r + 1) * (n + 1) + c + 1 < n * (n + 1)) by (nonlinear_arith)
                requires
                    0 <= r < n - 1,
                    0 <= c < n - 1,
            ;
        }
    } else {
        if !v {
            assert(edge(n, pl, idx) == (r * n + c, (r + 1) * n + c));
            assert(0 <= r * n + c < n * (n + 1) && 0 <= (r + 1) * n + c < n * (n + 1)) by (nonlinear_arith)
                requires
                    0 <= r < n,
                    0 <= c < n,
            ;
        } else {
            assert(edge(n, pl, idx) == ((r + 1) * n + c, (r + 1) * n + c + 1));
            assert(0 <= (r + 1) * n + c < n * (n + 1) && (r + 1) * n + c + 1 < n * (n + 1)) by (nonlinear_arith)
                requires
                    0 <= r < n - 1,
                    0 <= c < n - 1,
            ;
        }
    }
}

/// Mirroring a crossing across the diagonal keeps it on the board, and mirroring
/// twice gives it back.
pub proof fn lemma_transpose_involution(n: int, idx: int)
    requires
        1 <= n <= 7,
        0 <= idx < ncross(n),
    ensures
        0 <= transpose_spec(n, idx) < ncross(n),
        transpose_spec(n, transpose_spec(n, idx)) == idx,
{
    lemma_decode(n, idx);
    let (v, r, c) = decode(n, idx);
    let t = transpose_spec(n, idx);
    if !v {
        assert(0 <= c * n + r < n * n) by (nonlinear_arith)
            requires
                0 <= r < n,
                0 <= c < n,
        ;
        assert(n * n <= ncross(n)) by (nonlinear_arith)
            requires
                n >= 1,
        ;
        vstd::arithmetic::div_mod::lemma_fundamental_div_mod_converse(c * n + r, n, c, r);
    } else {
        let m = n - 1;
        assert(0 <= c * m + r < m * m) by (nonlinear_arith)
            requires
                0 <= r < m,
                0 <= c < m,
        ;
        assert(n * n + m * m == ncross(n)) by (nonlinear_arith)
            requires
                m == n - 1,
        ;
        vstd::arithmetic::div_mod::lemma_fundamental_div_mod_converse(c * m + r, m, c, r);
    }
}

/// Each crossing carries one Red and one Gold bridge with the same centre: doubled
/// world coordinates of Red dot `(r, c)` are `(2c, 2r + 1)`, of Gold dot `(r, c)` are
/// `(2c + 1, 2r)`, and the sums of the two ends agree.
pub proof fn lemma_bridges_share_a_centre(n: int, idx: int)
    requires
        1 <= n <= 7,
        0 <= idx < ncross(n),
    ensures
        ({
            let (ra, rb) = edge(n, 0, idx);
            let (ga, gb) = edge(n, 1, idx);
            &&& 2 * (ra % (n + 1)) + 2 * (rb % (n + 1)) == 2 * (ga % n) + 1 + 2 * (gb % n) + 1
            &&& 2 * (ra / (n + 1)) + 1 + 2 * (rb / (n + 1)) + 1 == 2 * (ga / n) + 2 * (gb / n)
        }),
{
    lemma_decode(n, idx);
    let (v, r, c) = decode(n, idx);
    let w = n + 1;
    if !v {
        vstd::arithmetic::div_mod::lemma_fundamental_div_mod_converse(r * w + c, w, r, c);
        vstd::arithmetic::div_mod::lemma_fundamental_div_mod_converse(r * w + c + 1, w, r, c + 1);
        vstd::arithmetic::div_mod::lemma_fundamental_div_mod_converse(r * n + c, n, r, c);
        vstd::arithmetic::div_mod::lemma_fundamental_div_mod_converse((r + 1) * n + c, n, r + 1, c);
    } else {
        vstd::arithmetic::div_mod::lemma_fundamental_div_mod_converse(r * w + c + 1, w, r, c + 1);
        vstd::arithmetic::div_mod::lemma_fundamental_div_mod_converse((r + 1) * w + c + 1, w, r + 1, c + 1);
        vstd::arithmetic::div_mod::lemma_fundamental_div_mod_converse((r + 1) * n + c, n, r + 1, c);
        vstd::arithmetic::div_mod::lemma_fundamental_div_mod_converse((r + 1) * n + c + 1, n, r + 1, c + 1);
    }
}

/// A walk from the goal side extended by one more bridge still starts there.
proof fn lemma_reach_step(cross: Seq<i8>, n: int, pl: int, side: int, a: int, b: int, i: int)
    requires
        reaches(cross, n, pl, side, a),
        0 <= i < cross.len(),
        cross[i] == pl,
        edge(n, pl, i) == (a, b) || edge(n, pl, i) == (b, a),
    ensures
        reaches(cross, n, pl, side, b),
{
    let p = choose|p: Seq<int>|
        #[trigger] is_walk(cross, n, pl, p) && 0 <= p[0] < dots(n) && on_side(n, pl, side, p[0]) && p[p.len() - 1] == a;
    let q = p.push(b);
    assert(linked(cross, n, pl, a, b));
    assert forall|k: int| 0 <= k < q.len() - 1 implies #[trigger] linked(cross, n, pl, q[k], q[k + 1]) by {
        if k < p.len() - 1 {
            assert(q[k] == p[k] && q[k + 1] == p[k + 1]);
        }
    }
    assert(is_walk(cross, n, pl, q));
}

/// Once every bridge of `pl` joins two dots that are both marked or both unmarked,
/// a walk from a marked dot stays on marked dots.
proof fn lemma_walk_marked(cross: Seq<i8>, n: int, pl: int, p: Seq<int>, k: int, r: Seq<bool>)
    requires
        is_walk(cross, n, pl, p),
        0 <= k < p.len(),
        0 <= p[0] < r.len(),
        r[p[0]],
        r.len() == dots(n),
        1 <= n <= 7,
        cross.len() == ncross(n),
        forall|i: int| 0 <= i < cross.len() && cross[i] == pl ==> r[#[trigger] edge(n, pl, i).0] == r[edge(n, pl, i).1],
    ensures
        0 <= p[k] < r.len() ==> r[p[k]],
        k > 0 ==> 0 <= p[k] < r.len(),
    decreases k,
{
    if k > 0 {
        lemma_walk_marked(cross, n, pl, p, k - 1, r);
        let h = k - 1;
        assert(linked(cross, n, pl, p[h], p[h + 1]));
        let i = choose|i: int|
            0 <= i < cross.len() && cross[i] == pl && ((#[trigger] edge(n, pl, i)) == (p[k - 1], p[k]) || edge(n, pl, i) == (
                p[k],
                p[k - 1],
            ));
        lemma_edge_on_grid(n, pl, i);
        if k - 1 > 0 {
        } else {
            assert(0 <= p[k - 1] < r.len());
        }
    }
}

/// Number of unmarked dots among the first `k`.
pub open spec fn unmarked(r: Seq<bool>, k: int) -> int
    decreases k,
{
    if k <= 0 {
        0
    } else {
        unmarked(r, k - 1) + if r[k - 1] { 0int } else { 1int }
    }
}

proof fn lemma_unmarked_mark(r: Seq<bool>, j: int, k: int)
    requires
        0 <= j < r.len(),
        0 <= k <= r.len(),
    ensures
        unmarked(r.update(j, true), k) == unmarked(r, k) - if j < k && !r[j] { 1int } else { 0 },
        unmarked(r, k) >= 0,
    decreases k,
{
    if k > 0 {
        lemma_unmarked_mark(r, j, k - 1);
    }
}

#[derive(Clone, Debug)]
pub struct Gale {
    /// Owner of each crossing: -1 unclaimed, 0 Red, 1 Gold.
    pub cross: Vec<i8>,
    /// Dots per side.
    pub n: usize,
    pub current: u8,
    /// The pie rule is on: the second player may answer the opening with a swap.
    pub pie: bool,
    /// Half-moves played so far.
    pub ply: u32,
}

impl Gale {
    pub open spec fn wf(&self) -> bool {
        &&& 1 <= self.n <= 7
        &&& self.cross@.len() == ncross(self.n as int)
        &&& self.current < 2
    }

    /// An empty board with `n` dots per side, Red to move, the pie rule off.
    pub fn new(n: usize) -> (g: Self)
        requires
            1 <= n <= 7,
        ensures
            g.wf(),
            g.n == n,
            g.current == 0,
            !g.pie,
            g.ply == 0,
            forall|i: int| 0 <= i < g.cross@.len() ==> #[trigger] g.cross@[i] == -1,
    {
        assert(2 * n * n - 2 * n + 1 <= 85 && n * n <= 49 && 2 * n * n >= 2 * n) by (nonlinear_arith)
            requires
                1 <= n <= 7,
        ;
        let len = 2 * n * n - 2 * n + 1;
        let mut cross: Vec<i8> = Vec::new();
        let mut i: usize = 0;
        while i < len
            invariant
                i <= len,
                cross@.len() == i,
                forall|j: int| 0 <= j < i ==> #[trigger] cross@[j] == -1,
            decreases len - i,
        {
            cross.push(-1);
            i += 1;
        }
        Gale { cross, n, current: 0, pie: false, ply: 0 }
    }

    pub fn n_cross(&self) -> (k: usize)
        ensures
            k == self.cross@.len(),
    {
        self.cross.len()
    }

    fn decode(&self, idx: usize) -> (d: (bool, usize, usize))
        requires
            self.wf(),
            idx < self.cross@.len(),
        ensures
            (d.0, d.1 as int, d.2 as int) == decode(self.n as int, idx as int),
    {
        proof {
            lemma_decode(self.n as int, idx as int);
        }
        let n = self.n;
        assert(n * n <= 49) by (nonlinear_arith)
            requires
                1 <= n <= 7,
        ;
        let h = n * n;
        if idx < h {
            (false, idx / n, idx % n)
        } else {
            let j = idx - h;
            (true, j / (n - 1), j % (n - 1))
        }
    }

    /// The dots that crossing `idx` joins for player `pl`.
    fn edge(&self, pl: u8, idx: usize) -> (e: (usize, usize))
        requires
            self.wf(),
            pl < 2,
            idx < self.cross@.len(),
        ensures
            (e.0 as int, e.1 as int) == edge(self.n as int, pl as int, idx as int),
            e.0 < dots(self.n as int),
            e.1 < dots(self.n as int),
    {
        proof {
            lemma_decode(self.n as int, idx as int);
            lemma_edge_on_grid(self.n as int, pl as int, idx as int);
        }
        let n = self.n;
        let (v, r, c) = self.decode(idx);
        assert(r * (n + 1) <= 56 && (r + 1) * (n + 1) <= 64 && r * n <= 56 && (r + 1) * n <= 56) by (nonlinear_arith)
            requires
                0 <= r < n,
                n <= 7,
        ;
        if pl == 0 {
            if !v {
                (r * (n + 1) + c, r * (n + 1) + c + 1)
            } else {
                (r * (n + 1) + c + 1, (r + 1) * (n + 1) + c + 1)
            }
        } else {
            if !v {
                (r * n + c, (r + 1) * n + c)
            } else {
                ((r + 1) * n + c, (r + 1) * n + c + 1)
            }
        }
    }

    /// The mirror image of crossing `idx` across the diagonal.
    pub fn transpose(&self, idx: usize) -> (t: usize)
        requires
            self.wf(),
            idx < self.cross@.len(),
        ensures
            t == transpose_spec(self.n as int, idx as int),
            t < self.cross@.len(),
    {
        proof {
            lemma_transpose_involution(self.n as int, idx as int);
            lemma_decode(self.n as int, idx as int);
        }
        let n = self.n;
        let (v, r, c) = self.decode(idx);
        if !v {
            assert(c * n + r < 49) by (nonlinear_arith)
                requires
                    0 <= c < n,
                    0 <= r < n,
                    1 <= n <= 7,
            ;
            c * n + r
        } else {
            assert(n * n + c * (n - 1) + r < 85) by (nonlinear_arith)
                requires
                    0 <= c < n - 1,
                    0 <= r < n - 1,
                    1 <= n <= 7,
            ;
            n * n + c * (n - 1) + r
        }
    }

    fn on_side(&self, pl: u8, side: u8, d: usize) -> (b: bool)
        requires
            self.wf(),
            pl < 2,
        ensures
            b == on_side(self.n as int, pl as int, side as int, d as int),
    {
        let n = self.n;
        let goal = if side == 0 { 0 } else { n };
        if pl == 0 {
            d % (n + 1) == goal
        } else {
            d / n == goal
        }
    }

    /// The dots of `pl` that its bridges join to its goal side `side`.
    fn reach(&self, pl: u8, side: u8) -> (r: Vec<bool>)
        requires
            self.wf(),
            pl < 2,
        ensures
            r@.len() == dots(self.n as int),
            forall|d: int| 0 <= d < dots(self.n as int) ==> #[trigger] r@[d] == reaches(self.cross@, self.n as int, pl as int, side as int, d),
    {
        let ghost cr = self.cross@;
        let ghost ni = self.n as int;
        let n = self.n;
        assert(2 <= n * (n + 1) <= 56) by (nonlinear_arith)
            requires
                1 <= n <= 7,
        ;
        let dcount = n * (n + 1);
        let mut r: Vec<bool> = Vec::new();
        let mut d: usize = 0;
        while d < dcount
            invariant
                self.wf(),
                pl < 2,
                dcount == dots(ni),
                ni == self.n,
                d <= dcount,
                r@.len() == d,
                forall|x: int| 0 <= x < d ==> #[trigger] r@[x] == on_side(ni, pl as int, side as int, x),
            decreases dcount - d,
        {
            r.push(self.on_side(pl, side, d));
            d += 1;
        }
        proof {
            assert forall|x: int| 0 <= x < dcount && #[trigger] r@[x] implies reaches(cr, ni, pl as int, side as int, x) by {
                let p = seq![x];
                assert(is_walk(cr, ni, pl as int, p));
            }
            lemma_unmarked_mark(r@, 0, dcount as int);
        }
        let mut changed = true;
        while changed
            invariant
                self.wf(),
                pl < 2,
                cr == self.cross@,
                ni == self.n,
                dcount == dots(ni),
                r@.len() == dcount,
                forall|x: int| 0 <= x < dcount && #[trigger] r@[x] ==> reaches(cr, ni, pl as int, side as int, x),
                forall|x: int| 0 <= x < dcount && on_side(ni, pl as int, side as int, x) ==> #[trigger] r@[x],
                !changed ==> forall|i: int| 0 <= i < cr.len() && cr[i] == pl ==> r@[#[trigger] edge(ni, pl as int, i).0] == r@[edge(ni, pl as int, i).1],
                unmarked(r@, dcount as int) >= 0,
            decreases unmarked(r@, dcount as int) + if changed { 1int } else { 0 },
        {
            let ghost r0 = r@;
            changed = false;
            let mut i: usize = 0;
            while i < self.cross.len()
                invariant
                    self.wf(),
                    pl < 2,
                    cr == self.cross@,
                    ni == self.n,
                    dcount == dots(ni),
                    r@.len() == dcount,
                    i <= cr.len(),
                    forall|x: int| 0 <= x < dcount && #[trigger] r@[x] ==> reaches(cr, ni, pl as int, side as int, x),
                    forall|x: int| 0 <= x < dcount && on_side(ni, pl as int, side as int, x) ==> #[trigger] r@[x],
                    !changed ==> r@ == r0,
                    !changed ==> forall|j: int| 0 <= j < i && cr[j] == pl ==> r@[#[trigger] edge(ni, pl as int, j).0] == r@[edge(ni, pl as int, j).1],
                    changed ==> unmarked(r@, dcount as int) < unmarked(r0, dcount as int),
                    unmarked(r@, dcount as int) <= unmarked(r0, dcount as int),
                    unmarked(r@, dcount as int) >= 0,
                decreases cr.len() - i,
            {
                if self.cross[i] == pl as i8 {
                    let (a, b) = self.edge(pl, i);
                    if r[a] != r[b] {
                        let ghost before = r@;
                        proof {
                            if before[a as int] {
                                lemma_reach_step(cr, ni, pl as int, side as int, a as int, b as int, i as int);
                            } else {
                                lemma_reach_step(cr, ni, pl as int, side as int, b as int, a as int, i as int);
                            }
                            lemma_unmarked_mark(before, a as int, dcount as int);
                            lemma_unmarked_mark(before.update(a as int, true), b as int, dcount as int);
                        }
                        r.set(a, true);
                        r.set(b, true);
                        changed = true;
                        proof {
                            lemma_unmarked_mark(r@, a as int, dcount as int);
                        }
                    }
                }
                i += 1;
            }
        }
        proof {
            assert forall|x: int| 0 <= x < dcount implies #[trigger] r@[x] == reaches(cr, ni, pl as int, side as int, x) by {
                if reaches(cr, ni, pl as int, side as int, x) {
                    let p = choose|p: Seq<int>|
                        #[trigger] is_walk(cr, ni, pl as int, p) && 0 <= p[0] < dots(ni) && on_side(ni, pl as int, side as int, p[0])
                            && p[p.len() - 1] == x;
                    lemma_walk_marked(cr, ni, pl as int, p, p.len() - 1, r@);
                }
            }
        }
        r
    }

    /// Player `pl`'s bridges join its two goal sides.
    pub fn connected(&self, pl: u8) -> (b: bool)
        requires
            self.wf(),
            pl < 2,
        ensures
            b == connected(self.cross@, self.n as int, pl as int),
    {
        let r = self.reach(pl, 0);
        let dcount = r.len();
        let mut d: usize = 0;
        while d < dcount
            invariant
                self.wf(),
                pl < 2,
                dcount == r@.len(),
                dcount == dots(self.n as int),
                d <= dcount,
                forall|x: int| 0 <= x < dots(self.n as int) ==> #[trigger] r@[x] == reaches(self.cross@, self.n as int, pl as int, 0, x),
                forall|x: int| 0 <= x < d && on_side(self.n as int, pl as int, 1, x) ==> !reaches(self.cross@, self.n as int, pl as int, 0, x),
            decreases dcount - d,
        {
            if self.on_side(pl, 1, d) && r[d] {
                proof {
                    assert(reaches(self.cross@, self.n as int, pl as int, 0, d as int));
                }
                return true;
            }
            d += 1;
        }
        false
    }

    /// Once a player has joined their sides: a win for the side to move if it is
    /// theirs, a loss otherwise (Red is checked first).
    pub open spec fn term_spec(&self) -> Option<Outcome> {
        if connected(self.cross@, self.n as int, 0) {
            Some(if self.current == 0 { Outcome::Win } else { Outcome::Loss })
        } else if connected(self.cross@, self.n as int, 1) {
            Some(if self.current == 1 { Outcome::Win } else { Outcome::Loss })
        } else {
            None
        }
    }

    pub fn term(&self) -> (t: Option<Outcome>)
        requires
            self.wf(),
        ensures
            t == self.term_spec(),
    {
        if self.connected(0) {
            Some(if self.current == 0 { Outcome::Win } else { Outcome::Loss })
        } else if self.connected(1) {
            Some(if self.current == 1 { Outcome::Win } else { Outcome::Loss })
        } else {
            None
        }
    }

    pub fn terminal_value(&self) -> (t: Option<Outcome>)
        requires
            self.wf(),
        ensures
            t == self.term_spec(),
    {
        self.term()
    }

    pub fn is_terminal(&self) -> (b: bool)
        requires
            self.wf(),
        ensures
            b == self.term_spec() is Some,
    {
        self.term().is_some()
    }

    pub fn current_player(&self) -> (p: u8)
        ensures
            p == self.current,
    {
        self.current
    }
}

/// The unclaimed crossings among the first `k`.
pub open spec fn empties_upto(cross: Seq<i8>, k: int) -> Seq<u16>
    decreases k,
{
    if k <= 0 {
        seq![]
    } else {
        empties_upto(cross, k - 1) + if cross[k - 1] < 0 { seq![(k - 1) as u16] } else { seq![] }
    }
}

/// `i` is the first claimed crossing of `cross`.
pub open spec fn first_claimed(cross: Seq<i8>, i: int) -> bool {
    &&& 0 <= i < cross.len()
    &&& cross[i] >= 0
    &&& forall|j: int| 0 <= j < i ==> #[trigger] cross[j] < 0
}

impl Gale {
    /// No moves once someone has connected; otherwise the unclaimed crossings in
    /// order, then the swap when the pie rule offers it on the second move.
    pub open spec fn moves_spec(&self) -> Seq<u16> {
        if self.term_spec() is Some {
            seq![]
        } else {
            empties_upto(self.cross@, self.cross@.len() as int) + if self.pie && self.ply == 1 {
                seq![SWAP]
            } else {
                seq![]
            }
        }
    }

    pub fn available_moves(&self) -> (v: Vec<u16>)
        requires
            self.wf(),
        ensures
            v@ == self.moves_spec(),
    {
        if self.term().is_some() {
            return Vec::new();
        }
        let mut moves: Vec<u16> = Vec::new();
        let mut i: usize = 0;
        assert(self.cross@.len() <= 85) by (nonlinear_arith)
            requires
                self.cross@.len() == 2 * self.n * self.n - 2 * self.n + 1,
                1 <= self.n <= 7,
        ;
        while i < self.cross.len()
            invariant
                self.wf(),
                i <= self.cross@.len(),
                self.cross@.len() <= 85,
                moves@ == empties_upto(self.cross@, i as int),
            decreases self.cross@.len() - i,
        {
            if self.cross[i] < 0 {
                moves.push(i as u16);
            }
            i += 1;
        }
        if self.pie && self.ply == 1 {
            moves.push(SWAP);
        }
        moves
    }

    /// Claim crossing `m` for the side to move, or with `m == SWAP` take the pie:
    /// clear the first claimed crossing and claim its mirror image. The turn passes.
    pub fn make_move(&mut self, m: &u16)
        requires
            old(self).wf(),
            *m == SWAP || (*m as int) < old(self).cross@.len(),
            old(self).ply < u32::MAX,
        ensures
            final(self).wf(),
            final(self).n == old(self).n,
            final(self).pie == old(self).pie,
            final(self).current == 1 - old(self).current,
            final(self).ply == old(self).ply + 1,
            *m != SWAP ==> final(self).cross@ == old(self).cross@.update(*m as int, old(self).current as i8),
            *m == SWAP ==> forall|i: int| #[trigger] first_claimed(old(self).cross@, i) ==> final(self).cross@ == old(
                self,
            ).cross@.update(i, -1i8).update(transpose_spec(old(self).n as int, i), old(self).current as i8),
            *m == SWAP && (forall|i: int| 0 <= i < old(self).cross@.len() ==> #[trigger] old(self).cross@[i] < 0)
                ==> final(self).cross@ == old(self).cross@,
    {
        if *m == SWAP {
            let mut found: Option<usize> = None;
            let mut i: usize = 0;
            while i < self.cross.len()
                invariant
                    self.wf(),
                    self.cross@ == old(self).cross@,
                    i <= self.cross@.len(),
                    found is None ==> forall|j: int| 0 <= j < i ==> #[trigger] self.cross@[j] < 0,
                    found matches Some(k) ==> first_claimed(self.cross@, k as int),
                decreases self.cross@.len() - i,
            {
                if found.is_none() && self.cross[i] >= 0 {
                    found = Some(i);
                }
                i += 1;
            }
            match found {
                Some(i) => {
                    proof {
                        assert forall|k: int| #[trigger] first_claimed(old(self).cross@, k) implies k == i by {
                            if k < i {
                                assert(self.cross@[k] < 0);
                            }
                            if k > i {
                                assert(old(self).cross@[i as int] < 0);
                            }
                        }
                    }
                    self.cross.set(i, -1);
                    let t = self.transpose(i);
                    let cur = self.current as i8;
                    self.cross.set(t, cur);
                },
                None => {},
            }
        } else {
            let cur = self.current as i8;
            self.cross.set(*m as usize, cur);
        }
        self.current = 1 - self.current;
        self.ply = self.ply + 1;
    }
}

/// The crossings among the first `k` that lie on `pl`'s winning bridge.
pub open spec fn bridge_upto(cross: Seq<i8>, n: int, pl: int, k: int) -> Seq<int>
    decreases k,
{
    if k <= 0 {
        seq![]
    } else {
        bridge_upto(cross, n, pl, k - 1) + if on_bridge(cross, n, pl, k - 1) { seq![k - 1] } else { seq![] }
    }
}

/// The text of a move: the crossing's number, or `swap`.
pub open spec fn move_token(m: u16) -> Seq<char> {
    if m == SWAP {
        seq!['s', 'w', 'a', 'p']
    } else {
        dec(m as nat)
    }
}

/// The texts of `ms`, joined by commas.
pub open spec fn tokens(ms: Seq<u16>) -> Seq<char>
    decreases ms.len(),
{
    if ms.len() == 0 {
        seq![]
    } else if ms.len() == 1 {
        move_token(ms[0])
    } else {
        tokens(ms.drop_last()) + seq![','] + move_token(ms.last())
    }
}

/// What a move text names on a board of `nc` crossings: `swap` (or the swap's
/// number), or a crossing number below `nc`.
pub open spec fn parse_move(t: Seq<char>, nc: int) -> Option<u16> {
    if t == seq!['s', 'w', 'a', 'p'] {
        Some(SWAP)
    } else {
        match parse_uint(t, 65535) {
            Some(v) => if v == 65535 {
                Some(SWAP)
            } else if v < nc {
                Some(v as u16)
            } else {
                None
            },
            None => None,
        }
    }
}

/// A crossing shown as `X` (Red), `O` (Gold) or a space.
pub open spec fn cross_char(v: i8) -> char {
    if v == 0 {
        'X'
    } else if v == 1 {
        'O'
    } else {
        ' '
    }
}

/// The table of a new game as the front end asks for it: dots per side clamped to
/// 3..=7, the pie rule on for any nonzero flag.
pub fn settings(n: u32, pie: u32) -> (r: (usize, bool))
    ensures
        r.0 == (if n < 3 { 3 } else if n > 7 { 7 } else { n }),
        r.1 == (pie != 0),
{
    let k: usize = if n < 3 { 3 } else if n > 7 { 7 } else { n as usize };
    (k, pie != 0)
}

impl Gale {
    /// The player who has joined their sides, Red checked first.
    pub open spec fn winner_side(&self) -> Option<int> {
        if connected(self.cross@, self.n as int, 0) {
            Some(0)
        } else if connected(self.cross@, self.n as int, 1) {
            Some(1)
        } else {
            None
        }
    }

    /// The crossings of the winning bridge in order; none while nobody has connected.
    pub open spec fn bridge_spec(&self) -> Seq<int> {
        match self.winner_side() {
            Some(pl) => bridge_upto(self.cross@, self.n as int, pl, self.cross@.len() as int),
            None => seq![],
        }
    }

    /// The winner's crossings whose bridges belong to a chain touching both of the
    /// winner's goal sides.
    pub fn winning_bridge(&self) -> (v: Vec<usize>)
        requires
            self.wf(),
        ensures
            v@.len() == self.bridge_spec().len(),
            forall|i: int| 0 <= i < v@.len() ==> #[trigger] v@[i] as int == self.bridge_spec()[i],
    {
        let pl: u8 = if self.connected(0) {
            0
        } else if self.connected(1) {
            1
        } else {
            return Vec::new();
        };
        let lo = self.reach(pl, 0);
        let hi = self.reach(pl, 1);
        let mut out: Vec<usize> = Vec::new();
        let mut idx: usize = 0;
        while idx < self.cross.len()
            invariant
                self.wf(),
                pl < 2,
                self.winner_side() == Some(pl as int),
                lo@.len() == dots(self.n as int),
                hi@.len() == dots(self.n as int),
                forall|d: int| 0 <= d < dots(self.n as int) ==> #[trigger] lo@[d] == reaches(self.cross@, self.n as int, pl as int, 0, d),
                forall|d: int| 0 <= d < dots(self.n as int) ==> #[trigger] hi@[d] == reaches(self.cross@, self.n as int, pl as int, 1, d),
                idx <= self.cross@.len(),
                out@.len() == bridge_upto(self.cross@, self.n as int, pl as int, idx as int).len(),
                forall|i: int| 0 <= i < out@.len() ==> #[trigger] out@[i] as int == bridge_upto(self.cross@, self.n as int, pl as int, idx as int)[i],
            decreases self.cross@.len() - idx,
        {
            if self.cross[idx] == pl as i8 {
                let (a, _b) = self.edge(pl, idx);
                if lo[a] && hi[a] {
                    out.push(idx);
                }
            }
            idx += 1;
        }
        out
    }

    /// One character per crossing in index order: `X` Red, `O` Gold, space unclaimed.
    pub fn board_string(&self) -> (s: String)
        ensures
            s@ == Seq::new(self.cross@.len(), |i: int| cross_char(self.cross@[i])),
    {
        let mut s = String::new();
        let mut i: usize = 0;
        while i < self.cross.len()
            invariant
                i <= self.cross@.len(),
                s@ == Seq::new(i as nat, |j: int| cross_char(self.cross@[j])),
            decreases self.cross@.len() - i,
        {
            let v = self.cross[i];
            let c = if v == 0 {
                'X'
            } else if v == 1 {
                'O'
            } else {
                ' '
            };
            push_char(&mut s, c);
            i += 1;
            assert(s@ =~= Seq::new(i as nat, |j: int| cross_char(self.cross@[j])));
        }
        s
    }

    /// The winner counted from 1 once someone has connected; empty before.
    pub fn result_string(&self) -> (s: String)
        requires
            self.wf(),
        ensures
            s@ == (match self.term_spec() {
                Some(Outcome::Win) => dec((self.current + 1) as nat),
                Some(Outcome::Loss) => dec((1 - self.current + 1) as nat),
                _ => Seq::<char>::empty(),
            }),
    {
        let mut s = String::new();
        match self.term() {
            Some(Outcome::Win) => push_dec(&mut s, self.current as u64 + 1),
            Some(Outcome::Loss) => push_dec(&mut s, (1 - self.current) as u64 + 1),
            _ => {},
        }
        s
    }

    /// The legal moves as texts, joined by commas.
    pub fn legal_moves_string(&self) -> (s: String)
        requires
            self.wf(),
        ensures
            s@ == tokens(self.moves_spec()),
    {
        let ms = self.available_moves();
        let mut s = String::new();
        let mut i: usize = 0;
        while i < ms.len()
            invariant
                i <= ms@.len(),
                s@ == tokens(ms@.take(i as int)),
            decreases ms@.len() - i,
        {
            if i > 0 {
                push_char(&mut s, ',');
            }
            if ms[i] == SWAP {
                push_str(&mut s, "swap");
                proof {
                    reveal_strlit("swap");
                }
            } else {
                push_dec(&mut s, ms[i] as u64);
            }
            proof {
                let t = ms@.take(i + 1);
                assert(t.drop_last() =~= ms@.take(i as int));
                assert(t.last() == ms@[i as int]);
                if i == 0 {
                    assert(tokens(ms@.take(0)) =~= Seq::<char>::empty());
                }
                assert(s@ =~= tokens(t));
            }
            i += 1;
        }
        proof {
            assert(ms@.take(ms@.len() as int) =~= ms@);
        }
        s
    }

    /// The crossings of the winning bridge, joined by commas.
    pub fn winning_cells_string(&self) -> (s: String)
        requires
            self.wf(),
        ensures
            s@ == join_nums(self.bridge_spec(), ','),
    {
        let v = self.winning_bridge();
        let ghost b = self.bridge_spec();
        let mut s = String::new();
        let mut i: usize = 0;
        while i < v.len()
            invariant
                i <= v@.len(),
                v@.len() == b.len(),
                forall|j: int| 0 <= j < v@.len() ==> #[trigger] v@[j] as int == b[j],
                s@ == join_nums(b.take(i as int), ','),
            decreases v@.len() - i,
        {
            if i > 0 {
                push_char(&mut s, ',');
            }
            push_dec(&mut s, v[i] as u64);
            proof {
                let t = b.take(i + 1);
                assert(t.drop_last() =~= b.take(i as int));
                assert(t.last() == b[i as int]);
                if i == 0 {
                    assert(join_nums(b.take(0), ',') =~= Seq::<char>::empty());
                }
                assert(s@ =~= join_nums(t, ','));
            }
            i += 1;
        }
        proof {
            assert(b.take(b.len() as int) =~= b);
        }
        s
    }

    /// Play the move that `mov` names if it is legal; false, leaving the game
    /// unchanged, otherwise.
    pub fn apply_text(&mut self, mov: &str) -> (ok: bool)
        requires
            old(self).wf(),
            old(self).ply < u32::MAX,
        ensures
            final(self).wf(),
            ok == (parse_move(mov@, old(self).cross@.len() as int) matches Some(m) && old(self).moves_spec().contains(m)),
            !ok ==> *final(self) == *old(self),
            ok ==> final(self).current == 1 - old(self).current && final(self).ply == old(self).ply + 1,
            ok && parse_move(mov@, old(self).cross@.len() as int) != Some(SWAP) ==> final(self).cross@ == old(
                self,
            ).cross@.update(parse_move(mov@, old(self).cross@.len() as int)->0 as int, old(self).current as i8),
            ok && parse_move(mov@, old(self).cross@.len() as int) == Some(SWAP) ==> forall|i: int|
                #[trigger] first_claimed(old(self).cross@, i) ==> final(self).cross@ == old(self).cross@.update(i, -1i8).update(
                    transpose_spec(old(self).n as int, i),
                    old(self).current as i8,
                ),
            ok ==> final(self).n == old(self).n && final(self).pie == old(self).pie,
    {
        let cs = chars_of(mov);
        let m: u16 = if chars_eq(cs.as_slice(), &['s', 'w', 'a', 'p']) {
            SWAP
        } else {
            proof {
                assert(cs@.subrange(0, cs@.len() as int) =~= mov@);
            }
            match parse_uint_range(&cs, 0, cs.len(), 65535) {
                Some(v) => {
                    if v == 65535 {
                        SWAP
                    } else if (v as usize) < self.cross.len() {
                        v as u16
                    } else {
                        return false;
                    }
                },
                None => {
                    return false;
                },
            }
        };
        proof {
            if cs@ == seq!['s', 'w', 'a', 'p'] {
                assert(mov@ =~= seq!['s', 'w', 'a', 'p']);
            } else {
                assert(mov@ != seq!['s', 'w', 'a', 'p']);
            }
        }
        let moves = self.available_moves();
        let mut found = false;
        let mut i: usize = 0;
        while i < moves.len()
            invariant
                i <= moves@.len(),
                found == exists|j: int| 0 <= j < i && moves@[j] == m,
            decreases moves@.len() - i,
        {
            if moves[i] == m {
                found = true;
            }
            i += 1;
        }
        if !found {
            return false;
        }
        proof {
            if m != SWAP {
                let j = choose|j: int| 0 <= j < moves@.len() && moves@[j] == m;
                assert(self.cross@.len() <= 85) by (nonlinear_arith)
                    requires
                        self.cross@.len() == 2 * self.n * self.n - 2 * self.n + 1,
                        1 <= self.n <= 7,
                ;
                let e = empties_upto(self.cross@, self.cross@.len() as int);
                if j >= e.len() {
                    assert(moves@[j] == SWAP);
                }
                lemma_empties_unclaimed(self.cross@, self.cross@.len() as int, j);
            }
        }
        self.make_move(&m);
        true
    }
}


impl Gale {
    /// The two Red dots that crossing `idx` joins.
    pub fn red_edge(&self, idx: usize) -> (e: (usize, usize))
        requires
            self.wf(),
            idx < self.cross@.len(),
        ensures
            (e.0 as int, e.1 as int) == edge(self.n as int, 0, idx as int),
    {
        self.edge(0, idx)
    }

    /// The two Gold dots that crossing `idx` joins.
    pub fn gold_edge(&self, idx: usize) -> (e: (usize, usize))
        requires
            self.wf(),
            idx < self.cross@.len(),
        ensures
            (e.0 as int, e.1 as int) == edge(self.n as int, 1, idx as int),
    {
        self.edge(1, idx)
    }
}

/// A claimed crossing is never offered again: every legal move other than the swap
/// names an unclaimed crossing.
pub proof fn lemma_moves_are_unclaimed(g: Gale, m: u16)
    requires
        g.wf(),
        g.moves_spec().contains(m),
        m != SWAP,
    ensures
        (m as int) < g.cross@.len(),
        g.cross@[m as int] < 0,
{
    assert(g.cross@.len() <= 85) by (nonlinear_arith)
        requires
            g.cross@.len() == 2 * g.n * g.n - 2 * g.n + 1,
            1 <= g.n <= 7,
    ;
    let ms = g.moves_spec();
    let j = choose|j: int| 0 <= j < ms.len() && ms[j] == m;
    let e = empties_upto(g.cross@, g.cross@.len() as int);
    if j >= e.len() {
        assert(ms[j] == SWAP);
    }
    lemma_empties_unclaimed(g.cross@, g.cross@.len() as int, j);
}

proof fn lemma_empties_unclaimed(cross: Seq<i8>, k: int, j: int)
    requires
        0 <= k <= cross.len(),
        cross.len() <= 85,
        0 <= j < empties_upto(cross, k).len(),
    ensures
        (empties_upto(cross, k)[j] as int) < k,
        cross[empties_upto(cross, k)[j] as int] < 0,
    decreases k,
{
    if k > 0 {
        let prev = empties_upto(cross, k - 1);
        if j < prev.len() {
            lemma_empties_unclaimed(cross, k - 1, j);
        }
    }
}

} // verus!
