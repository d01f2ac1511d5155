//! Hex on an `n`-by-`n` rhombus: player 0 (`X`) joins the top and bottom rows,
//! player 1 (`O`) the left and right columns. Each cell touches six others. The
//! completion distance of a player, the least number of empty cells that would
//! join its sides through its own stones, decides the game (zero means joined) and
//! drives the evaluation. An optional pie rule lets the second player answer the
//! opening stone by taking its mirror image across the long diagonal.
use vstd::prelude::*;
use crate::outcome::Outcome;
use crate::text::{push_char, push_str, push_dec, dec, join_nums, chars_of, chars_eq, parse_uint, parse_uint_range};
use crate::gale::{tokens, parse_move, empties_upto, first_claimed};

verus! {

/// The move that takes the pie (swap) offer.
pub const SWAP: u16 = 65535;

/// The neighbour of cell `i` in direction `(dr, dc)` on an `n`-wide board, if on it.
pub open spec fn hnbr(n: int, i: int, dr: int, dc: int) -> Seq<usize> {
    let r = i / n + dr;
    let c = i % n + dc;
    if 0 <= r < n && 0 <= c < n {
        seq![(r * n + c) as usize]
    } else {
        seq![]
    }
}

/// The up to six neighbours of cell `i`: up, down, left, right, up-right, down-left.
pub open spec fn hex_nbrs(n: int, i: int) -> Seq<usize> {
    hnbr(n, i, -1, 0) + hnbr(n, i, 1, 0) + hnbr(n, i, 0, -1) + hnbr(n, i, 0, 1) + hnbr(n, i, -1, 1) + hnbr(n, i, 1, -1)
}

/// Cell `b` touches cell `a`.
pub open spec fn step(n: int, a: int, b: int) -> bool {
    exists|j: int| 0 <= j < hex_nbrs(n, a).len() && #[trigger] hex_nbrs(n, a)[j] as int == b
}

/// `p` walks from cell to touching cell over stones of `pl` only.
pub open spec fn own_walk(b: Seq<i8>, n: int, pl: i8, p: Seq<int>) -> bool {
    &&& p.len() >= 1
    &&& forall|k: int| 0 <= k < p.len() ==> 0 <= #[trigger] p[k] < n * n && b[p[k]] == pl
    &&& forall|k: int| 0 <= k < p.len() - 1 ==> #[trigger] step(n, p[k], p[k + 1])
}

/// Stone `d` of `pl` is joined to stone `s` through stones of `pl`.
pub open spec fn joined(b: Seq<i8>, n: int, pl: i8, s: int, d: int) -> bool {
    exists|p: Seq<int>| #[trigger] own_walk(b, n, pl, p) && p[0] == s && p[p.len() - 1] == d
}

/// Cell `x` lies on the start side of `pl` (top row for 0, left column for 1).
pub open spec fn on_start(n: int, pl: int, x: int) -> bool {
    if pl == 0 {
        x / n == 0
    } else {
        x % n == 0
    }
}

/// Cell `x` lies on the end side of `pl` (bottom row for 0, right column for 1).
pub open spec fn on_end(n: int, pl: int, x: int) -> bool {
    if pl == 0 {
        x / n == n - 1
    } else {
        x % n == n - 1
    }
}

/// No enemy stone on `x`.
pub open spec fn passable(b: Seq<i8>, pl: int, x: int) -> bool {
    b[x] != 1 - pl
}

/// An empty (or foreign) cell costs one, an own stone nothing.
pub open spec fn cost(b: Seq<i8>, pl: int, x: int) -> int {
    if b[x] == pl {
        0
    } else {
        1
    }
}

/// `p` runs from the start side of `pl` from cell to touching cell, avoiding enemy
/// stones.
pub open spec fn route(b: Seq<i8>, n: int, pl: int, p: Seq<int>) -> bool {
    &&& p.len() >= 1
    &&& on_start(n, pl, p[0])
    &&& forall|k: int| 0 <= k < p.len() ==> 0 <= #[trigger] p[k] < n * n && passable(b, pl, p[k])
    &&& forall|k: int| 0 <= k < p.len() - 1 ==> #[trigger] step(n, p[k], p[k + 1])
}

/// The cost of the first `k` cells of `p`.
pub open spec fn route_cost(b: Seq<i8>, pl: int, p: Seq<int>, k: int) -> int
    decreases k,
{
    if k <= 0 {
        0
    } else {
        route_cost(b, pl, p, k - 1) + cost(b, pl, p[k - 1])
    }
}

/// `d` is the least cost of a route that reaches the end side.
pub open spec fn is_min_cost(b: Seq<i8>, n: int, pl: int, d: int) -> bool {
    &&& exists|p: Seq<int>|
        #[trigger] route(b, n, pl, p) && on_end(n, pl, p[p.len() - 1]) && route_cost(b, pl, p, p.len() as int) == d
    &&& forall|p: Seq<int>|
        #[trigger] route(b, n, pl, p) && on_end(n, pl, p[p.len() - 1]) ==> route_cost(b, pl, p, p.len() as int) >= d
}

/// The completion distance of `pl`: the least number of cells to fill to join its
/// sides, or `i32::MAX` when they cannot be joined for fewer.
pub open spec fn dist_spec(b: Seq<i8>, n: int, pl: int) -> int {
    if exists|d: int| d < i32::MAX && is_min_cost(b, n, pl, d) {
        choose|d: int| d < i32::MAX && is_min_cost(b, n, pl, d)
    } else {
        i32::MAX as int
    }
}

proof fn lemma_route_cost_bounds(b: Seq<i8>, pl: int, p: Seq<int>, k: int)
    ensures
        0 <= route_cost(b, pl, p, k),
        route_cost(b, pl, p, k) <= (if k > 0 { k } else { 0 }),
    decreases k,
{
    if k > 0 {
        lemma_route_cost_bounds(b, pl, p, k - 1);
    }
}

/// The least cost is unique.
proof fn lemma_min_cost_unique(b: Seq<i8>, n: int, pl: int, d: int, e: int)
    requires
        is_min_cost(b, n, pl, d),
        is_min_cost(b, n, pl, e),
    ensures
        d == e,
{
    let p = choose|p: Seq<int>|
        #[trigger] route(b, n, pl, p) && on_end(n, pl, p[p.len() - 1]) && route_cost(b, pl, p, p.len() as int) == d;
    let q = choose|q: Seq<int>|
        #[trigger] route(b, n, pl, q) && on_end(n, pl, q[q.len() - 1]) && route_cost(b, pl, q, q.len() as int) == e;
}

proof fn lemma_hnbr(n: int, i: int, dr: int, dc: int)
    requires
        1 <= n <= 11,
        0 <= i < n * n,
        -1 <= dr <= 1,
        -1 <= dc <= 1,
    ensures
        hnbr(n, i, dr, dc).len() <= 1,
        hnbr(n, i, dr, dc).len() == 1 ==> (hnbr(n, i, dr, dc)[0] as int) < n * n,
{
    let r = i / n + dr;
    let c = i % n + dc;
    if 0 <= r < n && 0 <= c < n {
        assert(0 <= r * n + c < n * n) by (nonlinear_arith)
            requires
                0 <= r < n,
                0 <= c < n,
        ;
    }
}

/// Every entry of `q` is below `m`.
pub open spec fn all_below(q: Seq<usize>, m: int) -> bool {
    forall|i: int| 0 <= i < q.len() ==> (#[trigger] q[i] as int) < m
}

proof fn lemma_nbrs_on_board(n: int, i: int)
    requires
        1 <= n <= 11,
        0 <= i < n * n,
    ensures
        all_below(hex_nbrs(n, i), n * n),
        hex_nbrs(n, i).len() <= 6,
{
    lemma_hnbr(n, i, -1, 0);
    lemma_hnbr(n, i, 1, 0);
    lemma_hnbr(n, i, 0, -1);
    lemma_hnbr(n, i, 0, 1);
    lemma_hnbr(n, i, -1, 1);
    lemma_hnbr(n, i, 1, -1);
    let m = n * n;
    let a = hnbr(n, i, -1, 0) + hnbr(n, i, 1, 0);
    assert(all_below(a, m));
    let a = a + hnbr(n, i, 0, -1);
    assert(all_below(a, m));
    let a = a + hnbr(n, i, 0, 1);
    assert(all_below(a, m));
    let a = a + hnbr(n, i, -1, 1);
    assert(all_below(a, m));
    let a = a + hnbr(n, i, 1, -1);
    assert(all_below(a, m));
    assert(a =~= hex_nbrs(n, i));
}

/// Distance `dist` obeys the step from cell `u` to its `j`-th neighbour: a reachable
/// cell bounds its passable neighbour by its own distance plus the neighbour's cost.
pub open spec fn relaxed(b: Seq<i8>, n: int, pl: int, dist: Seq<i32>, u: int, j: int) -> bool {
    dist[u] < i32::MAX && passable(b, pl, hex_nbrs(n, u)[j] as int) ==> dist[hex_nbrs(n, u)[j] as int] <= dist[u] + cost(
        b,
        pl,
        hex_nbrs(n, u)[j] as int,
    )
}

/// Sum of the first `k` entries.
pub open spec fn dsum(d: Seq<i32>, k: int) -> int
    decreases k,
{
    if k <= 0 {
        0
    } else {
        dsum(d, k - 1) + d[k - 1]
    }
}

proof fn lemma_dsum_update(d: Seq<i32>, i: int, x: i32, k: int)
    requires
        0 <= i < d.len(),
        0 <= k <= d.len(),
    ensures
        dsum(d.update(i, x), k) == dsum(d, k) + if i < k { x - d[i] } else { 0 },
    decreases k,
{
    if k > 0 {
        lemma_dsum_update(d, i, x, k - 1);
    }
}

proof fn lemma_dsum_nonneg(d: Seq<i32>, k: int)
    requires
        forall|i: int| 0 <= i < d.len() ==> #[trigger] d[i] >= 0,
        0 <= k <= d.len(),
    ensures
        dsum(d, k) >= 0,
    decreases k,
{
    if k > 0 {
        lemma_dsum_nonneg(d, k - 1);
    }
}

/// A route to `v` extended by a touching passable cell is a route to that cell.
proof fn lemma_route_step(b: Seq<i8>, n: int, pl: int, p: Seq<int>, v: int)
    requires
        route(b, n, pl, p),
        0 <= v < n * n,
        passable(b, pl, v),
        step(n, p[p.len() - 1], v),
    ensures
        route(b, n, pl, p.push(v)),
        route_cost(b, pl, p.push(v), p.len() as int + 1) == route_cost(b, pl, p, p.len() as int) + cost(b, pl, v),
{
    let q = p.push(v);
    assert forall|k: int| 0 <= k < q.len() - 1 implies #[trigger] step(n, q[k], q[k + 1]) by {
        if k < p.len() - 1 {
            assert(q[k] == p[k] && q[k + 1] == p[k + 1]);
        }
    }
    assert forall|k: int| 0 <= k < q.len() implies 0 <= #[trigger] q[k] < n * n && passable(b, pl, q[k]) by {
        if k < p.len() {
            assert(q[k] == p[k]);
        }
    }
    lemma_route_cost_prefix(b, pl, p, v, p.len() as int);
}

proof fn lemma_route_cost_prefix(b: Seq<i8>, pl: int, p: Seq<int>, v: int, k: int)
    requires
        0 <= k <= p.len(),
    ensures
        route_cost(b, pl, p.push(v), k) == route_cost(b, pl, p, k),
    decreases k,
{
    if k > 0 {
        lemma_route_cost_prefix(b, pl, p, v, k - 1);
    }
}

#[derive(Clone, Debug)]
pub struct Hex {
    /// -1 empty, 0 for `X` (top to bottom), 1 for `O` (left to right).
    pub board: Vec<i8>,
    pub n: usize,
    pub current: u8,
    /// The pie rule is on: the second player may answer the opening with a swap.
    pub pie: bool,
    /// Half-moves played so far.
    pub ply: u32,
}

impl Hex {
    pub open spec fn wf(&self) -> bool {
        &&& 1 <= self.n <= 11
        &&& self.board@.len() == self.n * self.n
        &&& self.current < 2
    }

    /// An empty board of `n` by `n` cells, `X` to move, the pie rule off.
    pub fn new(n: usize) -> (g: Self)
        requires
            1 <= n <= 11,
        ensures
            g.wf(),
            g.n == n,
            g.current == 0,
            !g.pie,
            g.ply == 0,
            forall|i: int| 0 <= i < g.board@.len() ==> #[trigger] g.board@[i] == -1,
    {
        assert(n * n <= 121) by (nonlinear_arith)
            requires
                1 <= n <= 11,
        ;
        let len = n * n;
        let mut board: Vec<i8> = Vec::new();
        let mut i: usize = 0;
        while i < len
            invariant
                i <= len,
                board@.len() == i,
                forall|j: int| 0 <= j < i ==> #[trigger] board@[j] == -1,
            decreases len - i,
        {
            board.push(-1);
            i += 1;
        }
        Hex { board, n, current: 0, pie: false, ply: 0 }
    }

    fn push_nbr(&self, out: &mut Vec<usize>, i: usize, dr: i8, dc: i8)
        requires
            self.wf(),
            i < self.n * self.n,
            -1 <= dr <= 1,
            -1 <= dc <= 1,
        ensures
            final(out)@ == old(out)@ + hnbr(self.n as int, i as int, dr as int, dc as int),
    {
        let n = self.n;
        proof {
            lemma_hnbr(n as int, i as int, dr as int, dc as int);
            vstd::arithmetic::div_mod::lemma_div_pos_is_pos(i as int, n as int);
            vstd::arithmetic::div_mod::lemma_mod_pos_bound(i as int, n as int);
            vstd::arithmetic::div_mod::lemma_div_basics_5(i as int, n as int);
            assert(n * n <= 121) by (nonlinear_arith)
                requires
                    1 <= n <= 11,
            ;
        }
        let r = (i / n) as i64 + dr as i64;
        let c = (i % n) as i64 + dc as i64;
        if 0 <= r && r < n as i64 && 0 <= c && c < n as i64 {
            proof {
                assert(0 <= r * n + c < n * n) by (nonlinear_arith)
                    requires
                        0 <= r < n,
                        0 <= c < n,
                ;
            }
            out.push(r as usize * n + c as usize);
        }
        proof {
            assert(out@ =~= old(out)@ + hnbr(n as int, i as int, dr as int, dc as int));
        }
    }

    /// The up to six neighbours of cell `i`.
    pub fn neighbors(&self, i: usize) -> (v: Vec<usize>)
        requires
            self.wf(),
            i < self.n * self.n,
        ensures
            v@ == hex_nbrs(self.n as int, i as int),
    {
        let mut out: Vec<usize> = Vec::new();
        self.push_nbr(&mut out, i, -1, 0);
        self.push_nbr(&mut out, i, 1, 0);
        self.push_nbr(&mut out, i, 0, -1);
        self.push_nbr(&mut out, i, 0, 1);
        self.push_nbr(&mut out, i, -1, 1);
        self.push_nbr(&mut out, i, 1, -1);
        proof {
            assert(out@ =~= hex_nbrs(self.n as int, i as int));
        }
        out
    }

    /// The completion distance of `player`: the least number of empty cells to add to
    /// join its two sides through its own stones (0 once joined), by relaxing
    /// distances along touching cells until nothing improves.
    pub fn dist(&self, player: u8) -> (d: i32)
        requires
            self.wf(),
            player < 2,
        ensures
            d == dist_spec(self.board@, self.n as int, player as int),
    {
        let ghost b = self.board@;
        let ghost ni = self.n as int;
        let ghost pl = player as int;
        let n = self.n;
        assert(n * n <= 121) by (nonlinear_arith)
            requires
                1 <= n <= 11,
        ;
        let len = n * n;
        let enemy: i8 = 1 - player as i8;
        let mine: i8 = player as i8;
        let mut dist: Vec<i32> = Vec::new();
        let mut i: usize = 0;
        while i < len
            invariant
                i <= len,
                dist@.len() == i,
                forall|j: int| 0 <= j < i ==> #[trigger] dist@[j] == i32::MAX,
            decreases len - i,
        {
            dist.push(i32::MAX);
            i += 1;
        }
        // Seed the start side.
        let mut k: usize = 0;
        while k < n
            invariant
                self.wf(),
                b == self.board@,
                ni == n,
                n == self.n,
                len == n * n,
                len <= 121,
                pl == player,
                player < 2,
                enemy == 1 - pl,
                mine == pl,
                k <= n,
                dist@.len() == len,
                forall|x: int| 0 <= x < len ==> #[trigger] dist@[x] >= 0,
                forall|x: int|
                    0 <= x < len && #[trigger] dist@[x] < i32::MAX ==> exists|p: Seq<int>|
                        #[trigger] route(b, ni, pl, p) && p[p.len() - 1] == x && route_cost(b, pl, p, p.len() as int)
                            <= dist@[x],
                forall|x: int|
                    0 <= x < len && on_start(ni, pl, x) && passable(b, pl, x) && (if pl == 0 { x % ni < k } else { x
                        / ni < k }) ==> #[trigger] dist@[x] <= cost(b, pl, x),
            decreases n - k,
        {
            proof {
                assert(k * n < n * n && k < n * n) by (nonlinear_arith)
                    requires
                        k < n,
                ;
            }
            let s = if player == 0 { k } else { k * n };
            proof {
                if player == 0 {
                    vstd::arithmetic::div_mod::lemma_fundamental_div_mod_converse(k as int, n as int, 0, k as int);
                } else {
                    vstd::arithmetic::div_mod::lemma_fundamental_div_mod_converse((k * n) as int, n as int, k as int, 0);
                    assert(k * n < n * n) by (nonlinear_arith)
                        requires
                            k < n,
                    ;
                }
            }
            if self.board[s] != enemy {
                let d: i32 = if self.board[s] == mine { 0 } else { 1 };
                if d < dist[s] {
                    proof {
                        let p = seq![s as int];
                        assert(route(b, ni, pl, p));
                        reveal_with_fuel(route_cost, 2);
                        assert(route_cost(b, pl, p, 1) == cost(b, pl, s as int));
                    }
                    dist.set(s, d);
                }
            }
            proof {
                assert forall|x: int|
                    0 <= x < len && on_start(ni, pl, x) && passable(b, pl, x) && (if pl == 0 { x % ni < k + 1 } else { x
                        / ni < k + 1 }) implies #[trigger] dist@[x] <= cost(b, pl, x) by {
                    vstd::arithmetic::div_mod::lemma_fundamental_div_mod(x, ni);
                    if pl == 0 {
                        if x % ni == k {
                            assert(ni * (x / ni) == 0) by (nonlinear_arith)
                                requires
                                    x / ni == 0,
                            ;
                            assert(x == s);
                        }
                    } else {
                        if x / ni == k {
                            assert(ni * (x / ni) == k * n) by (nonlinear_arith)
                                requires
                                    x / ni == k,
                                    ni == n,
                            ;
                            assert(x == s);
                        }
                    }
                }
            }
            k += 1;
        }
        proof {
            assert forall|x: int| 0 <= x < len && on_start(ni, pl, x) && passable(b, pl, x) implies #[trigger] dist@[x]
                <= cost(b, pl, x) by {
                vstd::arithmetic::div_mod::lemma_mod_pos_bound(x, ni);
                vstd::arithmetic::div_mod::lemma_div_basics_5(x, ni);
                if pl == 1 {
                    vstd::arithmetic::div_mod::lemma_div_is_ordered(x, len - 1, ni);
                    vstd::arithmetic::div_mod::lemma_div_by_multiple_is_strongly_ordered(len - 1, len as int, ni, ni);
                    vstd::arithmetic::div_mod::lemma_div_by_multiple(ni, ni);
                }
            }
            lemma_dsum_nonneg(dist@, len as int);
        }
        // Relax until nothing improves.
        let mut changed = true;
        while changed
            invariant
                self.wf(),
                b == self.board@,
                ni == n,
                n == self.n,
                len == n * n,
                len <= 121,
                pl == player,
                player < 2,
                enemy == 1 - pl,
                mine == pl,
                dist@.len() == len,
                forall|x: int| 0 <= x < len ==> #[trigger] dist@[x] >= 0,
                forall|x: int|
                    0 <= x < len && #[trigger] dist@[x] < i32::MAX ==> exists|p: Seq<int>|
                        #[trigger] route(b, ni, pl, p) && p[p.len() - 1] == x && route_cost(b, pl, p, p.len() as int)
                            <= dist@[x],
                forall|x: int| 0 <= x < len && on_start(ni, pl, x) && passable(b, pl, x) ==> #[trigger] dist@[x] <= cost(b, pl, x),
                !changed ==> forall|u: int, j: int|
                    0 <= u < len && 0 <= j < hex_nbrs(ni, u).len() ==> #[trigger] relaxed(b, ni, pl, dist@, u, j),
                dsum(dist@, len as int) >= 0,
            decreases dsum(dist@, len as int) + if changed { 1int } else { 0 },
        {
            let ghost d0 = dist@;
            changed = false;
            let mut u: usize = 0;
            while u < len
                invariant
                    self.wf(),
                    b == self.board@,
                    ni == n,
                    n == self.n,
                    len == n * n,
                    len <= 121,
                    pl == player,
                    player < 2,
                    enemy == 1 - pl,
                    mine == pl,
                    u <= len,
                    dist@.len() == len,
                    forall|x: int| 0 <= x < len ==> #[trigger] dist@[x] >= 0,
                    forall|x: int|
                        0 <= x < len && #[trigger] dist@[x] < i32::MAX ==> exists|p: Seq<int>|
                            #[trigger] route(b, ni, pl, p) && p[p.len() - 1] == x && route_cost(b, pl, p, p.len() as int)
                                <= dist@[x],
                    forall|x: int| 0 <= x < len && on_start(ni, pl, x) && passable(b, pl, x) ==> #[trigger] dist@[x] <= cost(b, pl, x),
                    !changed ==> dist@ == d0,
                    !changed ==> forall|w: int, j: int|
                        0 <= w < u && 0 <= j < hex_nbrs(ni, w).len() ==> #[trigger] relaxed(b, ni, pl, dist@, w, j),
                    changed ==> dsum(dist@, len as int) < dsum(d0, len as int),
                    dsum(dist@, len as int) <= dsum(d0, len as int),
                    dsum(dist@, len as int) >= 0,
                decreases len - u,
            {
                let du = dist[u];
                if du < i32::MAX {
                    let nb = self.neighbors(u);
                    proof {
                        lemma_nbrs_on_board(ni, u as int);
                    }
                    let ghost d1 = dist@;
                    let ghost c1 = changed;
                    let mut j: usize = 0;
                    while j < nb.len()
                        invariant
                            self.wf(),
                            b == self.board@,
                            ni == n,
                            n == self.n,
                            len == n * n,
                            len <= 121,
                            pl == player,
                            player < 2,
                            enemy == 1 - pl,
                            mine == pl,
                            u < len,
                            nb@ == hex_nbrs(ni, u as int),
                            all_below(nb@, len as int),
                            j <= nb@.len(),
                            dist@.len() == len,
                            du == dist@[u as int],
                            du < i32::MAX,
                            forall|x: int| 0 <= x < len ==> #[trigger] dist@[x] >= 0,
                            forall|x: int|
                                0 <= x < len && #[trigger] dist@[x] < i32::MAX ==> exists|p: Seq<int>|
                                    #[trigger] route(b, ni, pl, p) && p[p.len() - 1] == x && route_cost(
                                        b,
                                        pl,
                                        p,
                                        p.len() as int,
                                    ) <= dist@[x],
                            forall|x: int| 0 <= x < len && on_start(ni, pl, x) && passable(b, pl, x) ==> #[trigger] dist@[x] <= cost(b, pl, x),
                            !changed ==> dist@ == d0,
                            !changed ==> !c1,
                            !changed ==> forall|w: int, t: int|
                                0 <= w < u && 0 <= t < hex_nbrs(ni, w).len() ==> #[trigger] relaxed(b, ni, pl, dist@, w, t),
                            !changed ==> forall|t: int| 0 <= t < j ==> #[trigger] relaxed(b, ni, pl, dist@, u as int, t),
                            changed ==> dsum(dist@, len as int) < dsum(d0, len as int),
                            dsum(dist@, len as int) <= dsum(d0, len as int),
                            dsum(dist@, len as int) >= 0,
                        decreases nb@.len() - j,
                    {
                        let v = nb[j];
                        if self.board[v] != enemy {
                            let c: i32 = if self.board[v] == mine { 0 } else { 1 };
                            let nd = du + c;
                            if nd < dist[v] {
                                let ghost before = dist@;
                                proof {
                                    let p = choose|p: Seq<int>|
                                        #[trigger] route(b, ni, pl, p) && p[p.len() - 1] == u as int && route_cost(
                                            b,
                                            pl,
                                            p,
                                            p.len() as int,
                                        ) <= before[u as int];
                                    assert(step(ni, u as int, v as int)) by {
                                        assert(hex_nbrs(ni, u as int)[j as int] as int == v as int);
                                    }
                                    lemma_route_step(b, ni, pl, p, v as int);
                                    lemma_dsum_update(before, v as int, nd, len as int);
                                }
                                dist.set(v, nd);
                                changed = true;
                                proof {
                                    assert forall|x: int|
                                        0 <= x < len && #[trigger] dist@[x] < i32::MAX implies exists|p: Seq<int>|
                                            #[trigger] route(b, ni, pl, p) && p[p.len() - 1] == x && route_cost(
                                                b,
                                                pl,
                                                p,
                                                p.len() as int,
                                            ) <= dist@[x] by {
                                        if x == v as int {
                                            let p = choose|p: Seq<int>|
                                                #[trigger] route(b, ni, pl, p) && p[p.len() - 1] == u as int && route_cost(
                                                    b,
                                                    pl,
                                                    p,
                                                    p.len() as int,
                                                ) <= before[u as int];
                                            lemma_route_step(b, ni, pl, p, v as int);
                                            let q = p.push(v as int);
                                            assert(q[q.len() - 1] == x);
                                        } else {
                                            assert(before[x] == dist@[x]);
                                        }
                                    }
                                    assert(v != u) by {
                                        lemma_nbr_not_self(ni, u as int, j as int);
                                    }
                                    lemma_dsum_nonneg(dist@, len as int);
                                }
                            }
                        }
                        j += 1;
                    }
                }
                u += 1;
            }
        }
        // The least distance over the end side.
        let mut best: i32 = i32::MAX;
        let mut k: usize = 0;
        while k < n
            invariant
                self.wf(),
                b == self.board@,
                ni == n,
                n == self.n,
                len == n * n,
                pl == player,
                k <= n,
                dist@.len() == len,
                best == i32::MAX || exists|x: int|
                    0 <= x < len && on_end(ni, pl, x) && #[trigger] dist@[x] == best,
                forall|x: int| 0 <= x < len && on_end(ni, pl, x) && (if pl == 0 { x % ni < k } else { x / ni < k }) ==> best <= #[trigger] dist@[x],
            decreases n - k,
        {
            proof {
                assert(k * n + (n - 1) < n * n && (n - 1) * n + k < n * n) by (nonlinear_arith)
                    requires
                        k < n,
                ;
            }
            let e = if player == 0 { (n - 1) * n + k } else { k * n + (n - 1) };
            proof {
                if player == 0 {
                    vstd::arithmetic::div_mod::lemma_fundamental_div_mod_converse(((n - 1) * n + k) as int, n as int, n - 1, k as int);
                    assert((n - 1) * n + k < n * n) by (nonlinear_arith)
                        requires
                            k < n,
                    ;
                } else {
                    vstd::arithmetic::div_mod::lemma_fundamental_div_mod_converse((k * n + (n - 1)) as int, n as int, k as int, n - 1);
                    assert(k * n + (n - 1) < n * n) by (nonlinear_arith)
                        requires
                            k < n,
                    ;
                }
            }
            if dist[e] < best {
                best = dist[e];
            }
            proof {
                assert forall|x: int|
                    0 <= x < len && on_end(ni, pl, x) && (if pl == 0 { x % ni < k + 1 } else { x / ni < k + 1 }) implies best
                    <= #[trigger] dist@[x] by {
                    vstd::arithmetic::div_mod::lemma_fundamental_div_mod(x, ni);
                    if pl == 0 {
                        if x % ni == k {
                            assert(ni * (x / ni) == (n - 1) * n) by (nonlinear_arith)
                                requires
                                    x / ni == ni - 1,
                                    ni == n,
                            ;
                            assert(x == e);
                        }
                    } else {
                        if x / ni == k {
                            assert(ni * (x / ni) == k * n) by (nonlinear_arith)
                                requires
                                    x / ni == k,
                                    ni == n,
                            ;
                            assert(x == e);
                        }
                    }
                }
            }
            k += 1;
        }
        proof {
            assert forall|x: int| 0 <= x < len && on_end(ni, pl, x) implies best <= #[trigger] dist@[x] by {
                vstd::arithmetic::div_mod::lemma_mod_pos_bound(x, ni);
                vstd::arithmetic::div_mod::lemma_div_basics_5(x, ni);
                if pl == 1 {
                    vstd::arithmetic::div_mod::lemma_div_is_ordered(x, len - 1, ni);
                    vstd::arithmetic::div_mod::lemma_div_by_multiple_is_strongly_ordered(len - 1, len as int, ni, ni);
                    vstd::arithmetic::div_mod::lemma_div_by_multiple(ni, ni);
                }
            }
            // Every route to the end side costs at least `best`.
            assert forall|p: Seq<int>| #[trigger] route(b, ni, pl, p) && on_end(ni, pl, p[p.len() - 1]) implies route_cost(
                b,
                pl,
                p,
                p.len() as int,
            ) >= best by {
                lemma_route_lower(b, ni, pl, p, p.len() - 1, dist@);
            }
            if best < i32::MAX {
                let x = choose|x: int| 0 <= x < len && on_end(ni, pl, x) && #[trigger] dist@[x] == best;
                let p = choose|p: Seq<int>|
                    #[trigger] route(b, ni, pl, p) && p[p.len() - 1] == x && route_cost(b, pl, p, p.len() as int) <= dist@[x];
                lemma_route_lower(b, ni, pl, p, p.len() - 1, dist@);
                assert(is_min_cost(b, ni, pl, best as int));
                let c = choose|c: int| c < i32::MAX && is_min_cost(b, ni, pl, c);
                lemma_min_cost_unique(b, ni, pl, c, best as int);
            } else {
                if exists|c: int| c < i32::MAX && is_min_cost(b, ni, pl, c) {
                    let c = choose|c: int| c < i32::MAX && is_min_cost(b, ni, pl, c);
                    let p = choose|p: Seq<int>|
                        #[trigger] route(b, ni, pl, p) && on_end(ni, pl, p[p.len() - 1]) && route_cost(b, pl, p, p.len() as int) == c;
                }
            }
        }
        best
    }
}

proof fn lemma_hnbr_not_self(n: int, u: int, dr: int, dc: int)
    requires
        1 <= n <= 11,
        0 <= u < n * n,
        -1 <= dr <= 1,
        -1 <= dc <= 1,
        !(dr == 0 && dc == 0),
    ensures
        forall|i: int| 0 <= i < hnbr(n, u, dr, dc).len() ==> #[trigger] hnbr(n, u, dr, dc)[i] as int != u,
{
    vstd::arithmetic::div_mod::lemma_fundamental_div_mod(u, n);
    vstd::arithmetic::div_mod::lemma_mod_pos_bound(u, n);
    let r = u / n + dr;
    let c = u % n + dc;
    if 0 <= r < n && 0 <= c < n {
        assert(0 <= r * n + c < n * n) by (nonlinear_arith)
            requires
                0 <= r < n,
                0 <= c < n,
        ;
        vstd::arithmetic::div_mod::lemma_fundamental_div_mod_converse(r * n + c, n, r, c);
        assert(n * n <= 121) by (nonlinear_arith)
            requires
                1 <= n <= 11,
        ;
        assert(hnbr(n, u, dr, dc)[0] as int == r * n + c);
    }
}

/// A neighbour is another cell.
proof fn lemma_nbr_not_self(n: int, u: int, j: int)
    requires
        1 <= n <= 11,
        0 <= u < n * n,
        0 <= j < hex_nbrs(n, u).len(),
    ensures
        hex_nbrs(n, u)[j] as int != u,
{
    lemma_hnbr_not_self(n, u, -1, 0);
    lemma_hnbr_not_self(n, u, 1, 0);
    lemma_hnbr_not_self(n, u, 0, -1);
    lemma_hnbr_not_self(n, u, 0, 1);
    lemma_hnbr_not_self(n, u, -1, 1);
    lemma_hnbr_not_self(n, u, 1, -1);
    let a = hnbr(n, u, -1, 0) + hnbr(n, u, 1, 0);
    assert(forall|i: int| 0 <= i < a.len() ==> a[i] as int != u);
    let a = a + hnbr(n, u, 0, -1);
    assert(forall|i: int| 0 <= i < a.len() ==> a[i] as int != u);
    let a = a + hnbr(n, u, 0, 1);
    assert(forall|i: int| 0 <= i < a.len() ==> a[i] as int != u);
    let a = a + hnbr(n, u, -1, 1);
    assert(forall|i: int| 0 <= i < a.len() ==> a[i] as int != u);
    let a = a + hnbr(n, u, 1, -1);
    assert(forall|i: int| 0 <= i < a.len() ==> a[i] as int != u);
    assert(a =~= hex_nbrs(n, u));
}

/// With the distances relaxed, every cell of a route is at most the cost of the
/// route up to it.
proof fn lemma_route_lower(b: Seq<i8>, n: int, pl: int, p: Seq<int>, k: int, dist: Seq<i32>)
    requires
        route(b, n, pl, p),
        0 <= k < p.len(),
        dist.len() == n * n,
        forall|x: int| 0 <= x < n * n && on_start(n, pl, x) && passable(b, pl, x) ==> #[trigger] dist[x] <= cost(b, pl, x),
        forall|u: int, j: int| 0 <= u < n * n && 0 <= j < hex_nbrs(n, u).len() ==> #[trigger] relaxed(b, n, pl, dist, u, j),
    ensures
        dist[p[k]] <= route_cost(b, pl, p, k + 1),
    decreases k,
{
    lemma_route_cost_bounds(b, pl, p, k + 1);
    if k == 0 {
        reveal_with_fuel(route_cost, 2);
        assert(0 <= p[0] < n * n && passable(b, pl, p[0]));
    } else {
        lemma_route_lower(b, n, pl, p, k - 1, dist);
        let h = k - 1;
        assert(step(n, p[h], p[h + 1]));
        let j = choose|j: int| 0 <= j < hex_nbrs(n, p[h]).len() && #[trigger] hex_nbrs(n, p[h])[j] as int == p[h + 1];
        assert(0 <= p[k] < n * n && passable(b, pl, p[k]));
        assert(relaxed(b, n, pl, dist, p[h], j));
        if dist[p[h]] < i32::MAX {
        } else {
            lemma_route_cost_bounds(b, pl, p, k);
        }
    }
}

/// A walk of own stones from `s` extended by one more touching own stone.
proof fn lemma_walk_step(b: Seq<i8>, n: int, pl: i8, s: int, u: int, v: int)
    requires
        joined(b, n, pl, s, u),
        0 <= v < n * n,
        b[v] == pl,
        step(n, u, v),
    ensures
        joined(b, n, pl, s, v),
{
    let p = choose|p: Seq<int>| #[trigger] own_walk(b, n, pl, p) && p[0] == s && p[p.len() - 1] == u;
    let q = p.push(v);
    assert forall|k: int| 0 <= k < q.len() - 1 implies #[trigger] step(n, q[k], q[k + 1]) by {
        if k < p.len() - 1 {
            assert(q[k] == p[k] && q[k + 1] == p[k + 1]);
        }
    }
    assert forall|k: int| 0 <= k < q.len() implies 0 <= #[trigger] q[k] < n * n && b[q[k]] == pl by {
        if k < p.len() {
            assert(q[k] == p[k]);
        }
    }
    assert(own_walk(b, n, pl, q));
}

/// With the marks closed under stepping to own stones, a walk from a marked stone
/// stays on marked stones.
proof fn lemma_walk_marked(b: Seq<i8>, n: int, pl: i8, p: Seq<int>, k: int, r: Seq<bool>)
    requires
        own_walk(b, n, pl, p),
        0 <= k < p.len(),
        r.len() == n * n,
        r[p[0]],
        forall|u: int, j: int|
            0 <= u < n * n && 0 <= j < hex_nbrs(n, u).len() && r[u] && b[#[trigger] hex_nbrs(n, u)[j] as int] == pl
                ==> r[hex_nbrs(n, u)[j] as int],
    ensures
        r[p[k]],
    decreases k,
{
    if k > 0 {
        lemma_walk_marked(b, n, pl, p, k - 1, r);
        let h = k - 1;
        assert(step(n, p[h], p[h + 1]));
        let j = choose|j: int| 0 <= j < hex_nbrs(n, p[h]).len() && #[trigger] hex_nbrs(n, p[h])[j] as int == p[h + 1];
        assert(0 <= p[k] < n * n && b[p[k]] == pl);
        assert(0 <= p[h] < n * n);
    }
}

/// Number of unmarked cells among the first `k`.
pub open spec fn unmarked(r: Seq<bool>, k: int) -> int
    decreases k,
{
    if k <= 0 {
        0
    } else {
        unmarked(r, k - 1) + if r[k - 1] { 0int } else { 1int }
    }
}

proof fn lemma_unmarked_mark(r: Seq<bool>, j: int, k: int)
    requires
        0 <= j < r.len(),
        0 <= k <= r.len(),
    ensures
        unmarked(r.update(j, true), k) == unmarked(r, k) - if j < k && !r[j] { 1int } else { 0 },
        unmarked(r, k) >= 0,
    decreases k,
{
    if k > 0 {
        lemma_unmarked_mark(r, j, k - 1);
    }
}

/// Cell `x` lies on side `side` of player `pl` (0 the start side, 1 the end side).
pub open spec fn on_side(n: int, pl: int, side: int, x: int) -> bool {
    if side == 0 {
        on_start(n, pl, x)
    } else {
        on_end(n, pl, x)
    }
}

/// The stones of `pl` joined to stone `s` include one on side `side`.
pub open spec fn touches(b: Seq<i8>, n: int, pl: i8, s: int, side: int) -> bool {
    exists|d: int| 0 <= d < n * n && on_side(n, pl as int, side, d) && #[trigger] joined(b, n, pl, s, d)
}

/// Stone `s` of `pl` belongs to a chain touching both of its sides.
pub open spec fn chain_at(b: Seq<i8>, n: int, pl: i8, s: int) -> bool {
    b[s] == pl && touches(b, n, pl, s, 0) && touches(b, n, pl, s, 1)
}

/// The first cell below `k` whose stone belongs to a chain touching both sides.
pub open spec fn first_chain(b: Seq<i8>, n: int, pl: i8, k: int) -> Option<int>
    decreases k,
{
    if k <= 0 {
        None
    } else {
        match first_chain(b, n, pl, k - 1) {
            Some(s) => Some(s),
            None => if chain_at(b, n, pl, k - 1) {
                Some(k - 1)
            } else {
                None
            },
        }
    }
}

/// The cells below `k` of the stones joined to `s`, in order.
pub open spec fn chain_upto(b: Seq<i8>, n: int, pl: i8, s: int, k: int) -> Seq<int>
    decreases k,
{
    if k <= 0 {
        seq![]
    } else {
        chain_upto(b, n, pl, s, k - 1) + if joined(b, n, pl, s, k - 1) { seq![k - 1] } else { seq![] }
    }
}

impl Hex {
    /// The stones of `pl` joined to the stone on `start`.
    fn flood(&self, pl: i8, start: usize) -> (r: Vec<bool>)
        requires
            self.wf(),
            start < self.n * self.n,
            self.board@[start as int] == pl,
        ensures
            r@.len() == self.n * self.n,
            forall|d: int| 0 <= d < self.n * self.n ==> #[trigger] r@[d] == joined(self.board@, self.n as int, pl, start as int, d),
    {
        let ghost b = self.board@;
        let ghost ni = self.n as int;
        let n = self.n;
        assert(n * n <= 121) by (nonlinear_arith)
            requires
                1 <= n <= 11,
        ;
        let len = n * n;
        let mut r: Vec<bool> = Vec::new();
        let mut i: usize = 0;
        while i < len
            invariant
                i <= len,
                r@.len() == i,
                forall|j: int| 0 <= j < i ==> !#[trigger] r@[j],
            decreases len - i,
        {
            r.push(false);
            i += 1;
        }
        r.set(start, true);
        proof {
            let p = seq![start as int];
            assert(own_walk(b, ni, pl, p));
            assert forall|x: int| 0 <= x < len && #[trigger] r@[x] implies joined(b, ni, pl, start as int, x) by {
                assert(x == start);
            }
            lemma_unmarked_mark(r@, 0, len as int);
        }
        let mut changed = true;
        while changed
            invariant
                self.wf(),
                b == self.board@,
                ni == n,
                n == self.n,
                len == n * n,
                len <= 121,
                start < len,
                r@.len() == len,
                r@[start as int],
                forall|x: int| 0 <= x < len && #[trigger] r@[x] ==> joined(b, ni, pl, start as int, x),
                !changed ==> forall|u: int, j: int|
                    0 <= u < len && 0 <= j < hex_nbrs(ni, u).len() && r@[u] && b[#[trigger] hex_nbrs(ni, u)[j] as int] == pl
                        ==> r@[hex_nbrs(ni, u)[j] as int],
                unmarked(r@, len as int) >= 0,
            decreases unmarked(r@, len as int) + if changed { 1int } else { 0 },
        {
            let ghost r0 = r@;
            changed = false;
            let mut u: usize = 0;
            while u < len
                invariant
                    self.wf(),
                    b == self.board@,
                    ni == n,
                    n == self.n,
                    len == n * n,
                    len <= 121,
                    start < len,
                    u <= len,
                    r@.len() == len,
                    r@[start as int],
                    forall|x: int| 0 <= x < len && #[trigger] r@[x] ==> joined(b, ni, pl, start as int, x),
                    !changed ==> r@ == r0,
                    !changed ==> forall|w: int, j: int|
                        0 <= w < u && 0 <= j < hex_nbrs(ni, w).len() && r@[w] && b[#[trigger] hex_nbrs(ni, w)[j] as int]
                            == pl ==> r@[hex_nbrs(ni, w)[j] as int],
                    changed ==> unmarked(r@, len as int) < unmarked(r0, len as int),
                    unmarked(r@, len as int) <= unmarked(r0, len as int),
                    unmarked(r@, len as int) >= 0,
                decreases len - u,
            {
                if r[u] {
                    let nb = self.neighbors(u);
                    proof {
                        lemma_nbrs_on_board(ni, u as int);
                    }
                    let mut j: usize = 0;
                    while j < nb.len()
                        invariant
                            self.wf(),
                            b == self.board@,
                            ni == n,
                            n == self.n,
                            len == n * n,
                            len <= 121,
                            start < len,
                            u < len,
                            nb@ == hex_nbrs(ni, u as int),
                            all_below(nb@, len as int),
                            j <= nb@.len(),
                            r@.len() == len,
                            r@[start as int],
                            r@[u as int],
                            forall|x: int| 0 <= x < len && #[trigger] r@[x] ==> joined(b, ni, pl, start as int, x),
                            !changed ==> r@ == r0,
                            !changed ==> forall|w: int, t: int|
                                0 <= w < u && 0 <= t < hex_nbrs(ni, w).len() && r@[w] && b[#[trigger] hex_nbrs(ni, w)[t] as int]
                                    == pl ==> r@[hex_nbrs(ni, w)[t] as int],
                            !changed ==> forall|t: int| 0 <= t < j && b[#[trigger] nb@[t] as int] == pl ==> r@[nb@[t] as int],
                            changed ==> unmarked(r@, len as int) < unmarked(r0, len as int),
                            unmarked(r@, len as int) <= unmarked(r0, len as int),
                            unmarked(r@, len as int) >= 0,
                        decreases nb@.len() - j,
                    {
                        let v = nb[j];
                        if self.board[v] == pl && !r[v] {
                            let ghost before = r@;
                            proof {
                                assert(step(ni, u as int, v as int)) by {
                                    assert(hex_nbrs(ni, u as int)[j as int] as int == v as int);
                                }
                                lemma_walk_step(b, ni, pl, start as int, u as int, v as int);
                                lemma_unmarked_mark(before, v as int, len as int);
                            }
                            r.set(v, true);
                            changed = true;
                            proof {
                                lemma_unmarked_mark(r@, v as int, len as int);
                            }
                        }
                        j += 1;
                    }
                }
                u += 1;
            }
        }
        proof {
            assert forall|d: int| 0 <= d < len implies #[trigger] r@[d] == joined(b, ni, pl, start as int, d) by {
                if joined(b, ni, pl, start as int, d) {
                    let p = choose|p: Seq<int>| #[trigger] own_walk(b, ni, pl, p) && p[0] == start as int && p[p.len() - 1] == d;
                    lemma_walk_marked(b, ni, pl, p, p.len() - 1, r@);
                }
            }
        }
        r
    }

    /// The player whose sides are joined, `X` checked first.
    pub open spec fn winner_side(&self) -> Option<i8> {
        if dist_spec(self.board@, self.n as int, 0) == 0 {
            Some(0i8)
        } else if dist_spec(self.board@, self.n as int, 1) == 0 {
            Some(1i8)
        } else {
            None
        }
    }

    /// The cells of the winning chain in order: the stones joined to the first stone
    /// of the winner whose chain touches both of its sides; none while nobody has
    /// joined.
    pub open spec fn chain_spec(&self) -> Seq<int> {
        let len = self.n * self.n;
        match self.winner_side() {
            Some(pl) => match first_chain(self.board@, self.n as int, pl, len) {
                Some(s) => chain_upto(self.board@, self.n as int, pl, s, len),
                None => seq![],
            },
            None => seq![],
        }
    }

    pub fn winning_chain(&self) -> (v: Vec<usize>)
        requires
            self.wf(),
        ensures
            v@.len() == self.chain_spec().len(),
            forall|i: int| 0 <= i < v@.len() ==> #[trigger] v@[i] as int == self.chain_spec()[i],
    {
        let ghost b = self.board@;
        let ghost ni = self.n as int;
        let pl: i8 = if self.dist(0) == 0 {
            0
        } else if self.dist(1) == 0 {
            1
        } else {
            return Vec::new();
        };
        let n = self.n;
        assert(n * n <= 121) by (nonlinear_arith)
            requires
                1 <= n <= 11,
        ;
        let len = n * n;
        let mut start: usize = 0;
        while start < len
            invariant
                self.wf(),
                b == self.board@,
                ni == n,
                n == self.n,
                len == n * n,
                len <= 121,
                self.winner_side() == Some(pl),
                start <= len,
                first_chain(b, ni, pl, start as int) is None,
            decreases len - start,
        {
            if self.board[start] == pl {
                let r = self.flood(pl, start);
                let mut lo = false;
                let mut hi = false;
                let mut d: usize = 0;
                while d < len
                    invariant
                        self.wf(),
                        b == self.board@,
                        ni == n,
                        n == self.n,
                        len == n * n,
                        start < len,
                        d <= len,
                        r@.len() == len,
                        forall|x: int| 0 <= x < len ==> #[trigger] r@[x] == joined(b, ni, pl, start as int, x),
                        lo == exists|x: int| 0 <= x < d && on_side(ni, pl as int, 0, x) && #[trigger] joined(b, ni, pl, start as int, x),
                        hi == exists|x: int| 0 <= x < d && on_side(ni, pl as int, 1, x) && #[trigger] joined(b, ni, pl, start as int, x),
                    decreases len - d,
                {
                    if r[d] {
                        let row = d / n;
                        let col = d % n;
                        let at_lo = if pl == 0 { row == 0 } else { col == 0 };
                        let at_hi = if pl == 0 { row == n - 1 } else { col == n - 1 };
                        if at_lo {
                            lo = true;
                        }
                        if at_hi {
                            hi = true;
                        }
                        proof {
                            assert(joined(b, ni, pl, start as int, d as int));
                        }
                    }
                    d += 1;
                }
                if lo && hi {
                    proof {
                        assert(chain_at(b, ni, pl, start as int));
                        assert(first_chain(b, ni, pl, start + 1) == Some(start as int));
                        lemma_first_chain_stays(b, ni, pl, start + 1, len as int);
                    }
                    let mut out: Vec<usize> = Vec::new();
                    let mut c: usize = 0;
                    while c < len
                        invariant
                            r@.len() == len,
                            forall|x: int| 0 <= x < len ==> #[trigger] r@[x] == joined(b, ni, pl, start as int, x),
                            c <= len,
                            out@.len() == chain_upto(b, ni, pl, start as int, c as int).len(),
                            forall|i: int| 0 <= i < out@.len() ==> #[trigger] out@[i] as int == chain_upto(
                                b,
                                ni,
                                pl,
                                start as int,
                                c as int,
                            )[i],
                        decreases len - c,
                    {
                        if r[c] {
                            out.push(c);
                        }
                        c += 1;
                    }
                    return out;
                } else {
                    proof {
                        if touches(b, ni, pl, start as int, 0) && touches(b, ni, pl, start as int, 1) {
                            let x = choose|x: int| 0 <= x < ni * ni && on_side(ni, pl as int, 0, x) && #[trigger] joined(b, ni, pl, start as int, x);
                            let y = choose|y: int| 0 <= y < ni * ni && on_side(ni, pl as int, 1, y) && #[trigger] joined(b, ni, pl, start as int, y);
                        }
                    }
                }
            }
            start += 1;
        }
        Vec::new()
    }
}

proof fn lemma_first_chain_stays(b: Seq<i8>, n: int, pl: i8, k: int, m: int)
    requires
        k <= m,
        first_chain(b, n, pl, k) is Some,
    ensures
        first_chain(b, n, pl, m) == first_chain(b, n, pl, k),
    decreases m - k,
{
    if m > k {
        lemma_first_chain_stays(b, n, pl, k, m - 1);
    }
}

/// The mirror image of cell `i` across the long diagonal.
pub open spec fn mirror(n: int, i: int) -> int {
    (i % n) * n + i / n
}

/// Mirroring a cell keeps it on the board, and mirroring twice gives it back.
pub proof fn lemma_mirror_involution(n: int, i: int)
    requires
        1 <= n <= 11,
        0 <= i < n * n,
    ensures
        0 <= mirror(n, i) < n * n,
        mirror(n, mirror(n, i)) == i,
{
    let r = i / n;
    let c = i % n;
    vstd::arithmetic::div_mod::lemma_fundamental_div_mod(i, n);
    vstd::arithmetic::div_mod::lemma_mod_pos_bound(i, n);
    vstd::arithmetic::div_mod::lemma_div_pos_is_pos(i, n);
    assert(r < n) by {
        vstd::arithmetic::div_mod::lemma_div_is_ordered(i, n * n - 1, n);
        vstd::arithmetic::div_mod::lemma_div_by_multiple_is_strongly_ordered(n * n - 1, n * n, n, n);
        vstd::arithmetic::div_mod::lemma_div_by_multiple(n, n);
    }
    assert(0 <= c * n + r < n * n) by (nonlinear_arith)
        requires
            0 <= c < n,
            0 <= r < n,
    ;
    vstd::arithmetic::div_mod::lemma_fundamental_div_mod_converse(c * n + r, n, c, r);
    assert(i == r * n + c) by (nonlinear_arith)
        requires
            i == n * (i / n) + i % n,
            r == i / n,
            c == i % n,
    ;
}

impl Hex {
    /// Once a player has joined their sides: a win for the side to move if it is
    /// theirs, a loss otherwise (`X` checked first).
    pub open spec fn term_spec(&self) -> Option<Outcome> {
        if dist_spec(self.board@, self.n as int, 0) == 0 {
            Some(if self.current == 0 { Outcome::Win } else { Outcome::Loss })
        } else if dist_spec(self.board@, self.n as int, 1) == 0 {
            Some(if self.current == 1 { Outcome::Win } else { Outcome::Loss })
        } else {
            None
        }
    }

    pub fn term(&self) -> (t: Option<Outcome>)
        requires
            self.wf(),
        ensures
            t == self.term_spec(),
    {
        if self.dist(0) == 0 {
            Some(if self.current == 0 { Outcome::Win } else { Outcome::Loss })
        } else if self.dist(1) == 0 {
            Some(if self.current == 1 { Outcome::Win } else { Outcome::Loss })
        } else {
            None
        }
    }

    pub fn terminal_value(&self) -> (t: Option<Outcome>)
        requires
            self.wf(),
        ensures
            t == self.term_spec(),
    {
        self.term()
    }

    pub fn is_terminal(&self) -> (b: bool)
        requires
            self.wf(),
        ensures
            b == self.term_spec() is Some,
    {
        self.term().is_some()
    }

    pub fn current_player(&self) -> (p: u8)
        ensures
            p == self.current,
    {
        self.current
    }

    /// No moves once a player has joined; otherwise the empty cells in order, then the
    /// swap when the pie rule offers it on the second move.
    pub open spec fn moves_spec(&self) -> Seq<u16> {
        if self.term_spec() is Some {
            seq![]
        } else {
            empties_upto(self.board@, self.board@.len() as int) + if self.pie && self.ply == 1 {
                seq![SWAP]
            } else {
                seq![]
            }
        }
    }

    pub fn available_moves(&self) -> (v: Vec<u16>)
        requires
            self.wf(),
        ensures
            v@ == self.moves_spec(),
    {
        if self.term().is_some() {
            return Vec::new();
        }
        assert(self.n * self.n <= 121) by (nonlinear_arith)
            requires
                1 <= self.n <= 11,
        ;
        let mut moves: Vec<u16> = Vec::new();
        let mut i: usize = 0;
        while i < self.board.len()
            invariant
                self.wf(),
                self.board@.len() <= 121,
                i <= self.board@.len(),
                moves@ == empties_upto(self.board@, i as int),
            decreases self.board@.len() - i,
        {
            if self.board[i] < 0 {
                moves.push(i as u16);
            }
            i += 1;
        }
        if self.pie && self.ply == 1 {
            moves.push(SWAP);
        }
        moves
    }

    /// Place a stone of the side to move on cell `m`, or with `m == SWAP` take the pie:
    /// clear the first stone and place the mover's stone on its mirror image. The turn
    /// passes.
    pub fn make_move(&mut self, m: &u16)
        requires
            old(self).wf(),
            *m == SWAP || (*m as int) < old(self).board@.len(),
            old(self).ply < u32::MAX,
        ensures
            final(self).wf(),
            final(self).n == old(self).n,
            final(self).pie == old(self).pie,
            final(self).current == 1 - old(self).current,
            final(self).ply == old(self).ply + 1,
            *m != SWAP ==> final(self).board@ == old(self).board@.update(*m as int, old(self).current as i8),
            *m == SWAP ==> forall|i: int| #[trigger] first_claimed(old(self).board@, i) ==> final(self).board@ == old(
                self,
            ).board@.update(i, -1i8).update(mirror(old(self).n as int, i), old(self).current as i8),
            *m == SWAP && (forall|i: int| 0 <= i < old(self).board@.len() ==> #[trigger] old(self).board@[i] < 0)
                ==> final(self).board@ == old(self).board@,
    {
        if *m == SWAP {
            let mut found: Option<usize> = None;
            let mut i: usize = 0;
            while i < self.board.len()
                invariant
                    self.wf(),
                    self.board@ == old(self).board@,
                    i <= self.board@.len(),
                    found is None ==> forall|j: int| 0 <= j < i ==> #[trigger] self.board@[j] < 0,
                    found matches Some(k) ==> first_claimed(self.board@, k as int),
                decreases self.board@.len() - i,
            {
                if found.is_none() && self.board[i] >= 0 {
                    found = Some(i);
                }
                i += 1;
            }
            match found {
                Some(i) => {
                    proof {
                        assert forall|k: int| #[trigger] first_claimed(old(self).board@, k) implies k == i by {
                            if k < i {
                                assert(self.board@[k] < 0);
                            }
                            if k > i {
                                assert(old(self).board@[i as int] < 0);
                            }
                        }
                        lemma_mirror_involution(self.n as int, i as int);
                        vstd::arithmetic::div_mod::lemma_mod_pos_bound(i as int, self.n as int);
                        vstd::arithmetic::div_mod::lemma_div_basics_5(i as int, self.n as int);
                        assert((i % self.n) * self.n <= 121) by (nonlinear_arith)
                            requires
                                i % self.n < self.n,
                                self.n <= 11,
                        ;
                    }
                    let n = self.n;
                    let (r, c) = (i / n, i % n);
                    self.board.set(i, -1);
                    let cur = self.current as i8;
                    self.board.set(c * n + r, cur);
                },
                None => {},
            }
        } else {
            let cur = self.current as i8;
            self.board.set(*m as usize, cur);
        }
        self.current = 1 - self.current;
        self.ply = self.ply + 1;
    }

    /// The evaluation for `X`: how much closer `X` is to joining its sides than `O`.
    pub fn evaluate(&self) -> (e: i64)
        requires
            self.wf(),
        ensures
            e == dist_spec(self.board@, self.n as int, 1) - dist_spec(self.board@, self.n as int, 0),
    {
        let d1 = self.dist(1) as i64;
        let d0 = self.dist(0) as i64;
        d1 - d0
    }
}

/// The evaluation for `player`: as it stands for `X`, negated for `O`.
pub fn eval_for(e: i64, player: u8) -> (v: i64)
    requires
        e > i64::MIN,
    ensures
        v == (if player == 0 { e as int } else { -e }),
{
    if player == 0 {
        e
    } else {
        -e
    }
}

/// A cell shown as `X`, `O` or a space.
pub open spec fn cell_char(v: i8) -> char {
    if v == 0 {
        'X'
    } else if v == 1 {
        'O'
    } else {
        ' '
    }
}

/// The table of a new game as the front end asks for it: the side clamped to 4..=11,
/// the pie rule on for any nonzero flag.
pub fn settings(n: u32, pie: u32) -> (r: (usize, bool))
    ensures
        r.0 == (if n < 4 { 4 } else if n > 11 { 11 } else { n }),
        r.1 == (pie != 0),
{
    let k: usize = if n < 4 { 4 } else if n > 11 { 11 } else { n as usize };
    (k, pie != 0)
}

impl Hex {
    /// One character per cell in row-major order.
    pub fn board_string(&self) -> (s: String)
        ensures
            s@ == Seq::new(self.board@.len(), |i: int| cell_char(self.board@[i])),
    {
        let mut s = String::new();
        let mut i: usize = 0;
        while i < self.board.len()
            invariant
                i <= self.board@.len(),
                s@ == Seq::new(i as nat, |j: int| cell_char(self.board@[j])),
            decreases self.board@.len() - i,
        {
            let v = self.board[i];
            push_char(&mut s, if v == 0 { 'X' } else if v == 1 { 'O' } else { ' ' });
            i += 1;
            assert(s@ =~= Seq::new(i as nat, |j: int| cell_char(self.board@[j])));
        }
        s
    }

    /// The winner counted from 1 once someone has joined; empty before.
    pub fn result_string(&self) -> (s: String)
        requires
            self.wf(),
        ensures
            s@ == (match self.term_spec() {
                Some(Outcome::Win) => dec((self.current + 1) as nat),
                Some(Outcome::Loss) => dec((1 - self.current + 1) as nat),
                _ => Seq::<char>::empty(),
            }),
    {
        let mut s = String::new();
        match self.term() {
            Some(Outcome::Win) => push_dec(&mut s, self.current as u64 + 1),
            Some(Outcome::Loss) => push_dec(&mut s, (1 - self.current) as u64 + 1),
            _ => {},
        }
        s
    }

    /// The legal moves as texts (cell numbers, `swap`), joined by commas.
    pub fn legal_moves_string(&self) -> (s: String)
        requires
            self.wf(),
        ensures
            s@ == tokens(self.moves_spec()),
    {
        let ms = self.available_moves();
        let mut s = String::new();
        let mut i: usize = 0;
        while i < ms.len()
            invariant
                i <= ms@.len(),
                s@ == tokens(ms@.take(i as int)),
            decreases ms@.len() - i,
        {
            if i > 0 {
                push_char(&mut s, ',');
            }
            if ms[i] == SWAP {
                push_str(&mut s, "swap");
                proof {
                    reveal_strlit("swap");
                }
            } else {
                push_dec(&mut s, ms[i] as u64);
            }
            proof {
                let t = ms@.take(i + 1);
                assert(t.drop_last() =~= ms@.take(i as int));
                assert(t.last() == ms@[i as int]);
                if i == 0 {
                    assert(tokens(ms@.take(0)) =~= Seq::<char>::empty());
                }
                assert(s@ =~= tokens(t));
            }
            i += 1;
        }
        proof {
            assert(ms@.take(ms@.len() as int) =~= ms@);
        }
        s
    }

    /// The cells of the winning chain, joined by commas.
    pub fn winning_cells_string(&self) -> (s: String)
        requires
            self.wf(),
        ensures
            s@ == join_nums(self.chain_spec(), ','),
    {
        let v = self.winning_chain();
        let ghost b = self.chain_spec();
        let mut s = String::new();
        let mut i: usize = 0;
        while i < v.len()
            invariant
                i <= v@.len(),
                v@.len() == b.len(),
                forall|j: int| 0 <= j < v@.len() ==> #[trigger] v@[j] as int == b[j],
                s@ == join_nums(b.take(i as int), ','),
            decreases v@.len() - i,
        {
            if i > 0 {
                push_char(&mut s, ',');
            }
            push_dec(&mut s, v[i] as u64);
            proof {
                let t = b.take(i + 1);
                assert(t.drop_last() =~= b.take(i as int));
                assert(t.last() == b[i as int]);
                if i == 0 {
                    assert(join_nums(b.take(0), ',') =~= Seq::<char>::empty());
                }
                assert(s@ =~= join_nums(t, ','));
            }
            i += 1;
        }
        proof {
            assert(b.take(b.len() as int) =~= b);
        }
        s
    }

    /// Play the move that `mov` names if it is legal; false, leaving the game
    /// unchanged, otherwise.
    pub fn apply_text(&mut self, mov: &str) -> (ok: bool)
        requires
            old(self).wf(),
            old(self).ply < u32::MAX,
        ensures
            final(self).wf(),
            ok == (parse_move(mov@, old(self).board@.len() as int) matches Some(m) && old(self).moves_spec().contains(m)),
            !ok ==> *final(self) == *old(self),
            ok ==> final(self).current == 1 - old(self).current && final(self).ply == old(self).ply + 1,
            ok && parse_move(mov@, old(self).board@.len() as int) != Some(SWAP) ==> final(self).board@ == old(
                self,
            ).board@.update(parse_move(mov@, old(self).board@.len() as int)->0 as int, old(self).current as i8),
            ok && parse_move(mov@, old(self).board@.len() as int) == Some(SWAP) ==> forall|i: int|
                #[trigger] first_claimed(old(self).board@, i) ==> final(self).board@ == old(self).board@.update(i, -1i8).update(
                    mirror(old(self).n as int, i),
                    old(self).current as i8,
                ),
            ok ==> final(self).n == old(self).n && final(self).pie == old(self).pie,
    {
        let cs = chars_of(mov);
        let m: u16 = if chars_eq(cs.as_slice(), &['s', 'w', 'a', 'p']) {
            SWAP
        } else {
            proof {
                assert(cs@.subrange(0, cs@.len() as int) =~= mov@);
            }
            match parse_uint_range(&cs, 0, cs.len(), 65535) {
                Some(v) => {
                    if v == 65535 {
                        SWAP
                    } else if (v as usize) < self.board.len() {
                        v as u16
                    } else {
                        return false;
                    }
                },
                None => {
                    return false;
                },
            }
        };
        proof {
            if cs@ == seq!['s', 'w', 'a', 'p'] {
                assert(mov@ =~= seq!['s', 'w', 'a', 'p']);
            } else {
                assert(mov@ != seq!['s', 'w', 'a', 'p']);
            }
        }
        let moves = self.available_moves();
        let mut found = false;
        let mut i: usize = 0;
        while i < moves.len()
            invariant
                i <= moves@.len(),
                found == exists|j: int| 0 <= j < i && moves@[j] == m,
            decreases moves@.len() - i,
        {
            if moves[i] == m {
                found = true;
            }
            i += 1;
        }
        if !found {
            return false;
        }
        proof {
            if m != SWAP {
                let j = choose|j: int| 0 <= j < moves@.len() && moves@[j] == m;
                lemma_moves_are_empty(*self, m);
            }
        }
        self.make_move(&m);
        true
    }
}

/// An occupied cell is never offered again: every legal move other than the swap
/// names an empty cell.
pub proof fn lemma_moves_are_empty(g: Hex, m: u16)
    requires
        g.wf(),
        g.moves_spec().contains(m),
        m != SWAP,
    ensures
        (m as int) < g.board@.len(),
        g.board@[m as int] < 0,
{
    assert(g.board@.len() <= 121) by (nonlinear_arith)
        requires
            g.board@.len() == g.n * g.n,
            1 <= g.n <= 11,
    ;
    let ms = g.moves_spec();
    let j = choose|j: int| 0 <= j < ms.len() && ms[j] == m;
    let e = empties_upto(g.board@, g.board@.len() as int);
    if j >= e.len() {
        assert(ms[j] == SWAP);
    }
    lemma_empties(g.board@, g.board@.len() as int, j);
}

proof fn lemma_empties(b: Seq<i8>, k: int, j: int)
    requires
        0 <= k <= b.len(),
        b.len() <= 121,
        0 <= j < empties_upto(b, k).len(),
    ensures
        (empties_upto(b, k)[j] as int) < k,
        b[empties_upto(b, k)[j] as int] < 0,
    decreases k,
{
    if k > 0 {
        let prev = empties_upto(b, k - 1);
        if j < prev.len() {
            lemma_empties(b, k - 1, j);
        }
    }
}


/// Two cells touch exactly when one lies a single step up, down, left, right,
/// up-right or down-left of the other, on the board.
pub proof fn lemma_step_exact(n: int, a: int, r2: int, c2: int)
    requires
        1 <= n <= 255,
        0 <= a < n * n,
        0 <= r2 < n,
        0 <= c2 < n,
    ensures
        step(n, a, r2 * n + c2) <==> {
            let (dr, dc) = (r2 - a / n, c2 - a % n);
            ||| (dr == -1 && dc == 0)
            ||| (dr == 1 && dc == 0)
            ||| (dr == 0 && dc == -1)
            ||| (dr == 0 && dc == 1)
            ||| (dr == -1 && dc == 1)
            ||| (dr == 1 && dc == -1)
        },
{
    crate::capturego::lemma_cell_arith(n, n, a);
    let (r, c) = (a / n, a % n);
    let x = r2 * n + c2;
    crate::gridlib::lemma_cell_index(n, n, r2, c2);
    vstd::arithmetic::div_mod::lemma_fundamental_div_mod_converse(x, n, r2, c2);
    assert(n * n <= 65025) by (nonlinear_arith)
        requires
            1 <= n <= 255,
    ;
    let h = hex_nbrs(n, a);
    let parts = seq![hnbr(n, a, -1, 0), hnbr(n, a, 1, 0), hnbr(n, a, 0, -1), hnbr(n, a, 0, 1), hnbr(n, a, -1, 1), hnbr(n, a, 1, -1)];
    let dirs = seq![(-1int, 0int), (1int, 0int), (0int, -1int), (0int, 1int), (-1int, 1int), (1int, -1int)];
    assert forall|q: int| 0 <= q < 6 && 0 <= r + dirs[q].0 < n && 0 <= c + dirs[q].1 < n implies ((r + dirs[q].0) * n + (c + dirs[q].1)) as usize
        as int == (r + dirs[q].0) * n + (c + dirs[q].1) by {
        crate::gridlib::lemma_cell_index(n, n, r + dirs[q].0, c + dirs[q].1);
    }
    assert forall|q: int| 0 <= q < 6 && 0 <= r + dirs[q].0 < n && 0 <= c + dirs[q].1 < n && (r + dirs[q].0) * n + (c + dirs[q].1) == x implies r + dirs[q].0
        == r2 && c + dirs[q].1 == c2 by {
        vstd::arithmetic::div_mod::lemma_fundamental_div_mod_converse(x, n, r + dirs[q].0, c + dirs[q].1);
    }
    let p0 = hnbr(n, a, -1, 0);
    let p1 = hnbr(n, a, 1, 0);
    let p2 = hnbr(n, a, 0, -1);
    let p3 = hnbr(n, a, 0, 1);
    let p4 = hnbr(n, a, -1, 1);
    let p5 = hnbr(n, a, 1, -1);
    assert(h == p0 + p1 + p2 + p3 + p4 + p5);
    let (dr, dc) = (r2 - r, c2 - c);
    if step(n, a, x) {
        let j = choose|j: int| 0 <= j < h.len() && #[trigger] h[j] as int == x;
        let l0 = p0.len() as int;
        let l1 = l0 + p1.len();
        let l2 = l1 + p2.len();
        let l3 = l2 + p3.len();
        let l4 = l3 + p4.len();
        if j < l0 {
            assert(h[j] == p0[0]);
            assert(dirs[0] == (-1int, 0int));
        } else if j < l1 {
            assert(h[j] == p1[0]);
            assert(dirs[1] == (1int, 0int));
        } else if j < l2 {
            assert(h[j] == p2[0]);
            assert(dirs[2] == (0int, -1int));
        } else if j < l3 {
            assert(h[j] == p3[0]);
            assert(dirs[3] == (0int, 1int));
        } else if j < l4 {
            assert(h[j] == p4[0]);
            assert(dirs[4] == (-1int, 1int));
        } else {
            assert(h[j] == p5[0]);
            assert(dirs[5] == (1int, -1int));
        }
    }
    let l0 = p0.len() as int;
    let l1 = l0 + p1.len();
    let l2 = l1 + p2.len();
    let l3 = l2 + p3.len();
    let l4 = l3 + p4.len();
    if dr == -1 && dc == 0 {
        assert(dirs[0] == (-1int, 0int));
        assert(h[0] as int == x);
    } else if dr == 1 && dc == 0 {
        assert(dirs[1] == (1int, 0int));
        assert(h[l0] as int == x);
    } else if dr == 0 && dc == -1 {
        assert(dirs[2] == (0int, -1int));
        assert(h[l1] as int == x);
    } else if dr == 0 && dc == 1 {
        assert(dirs[3] == (0int, 1int));
        assert(h[l2] as int == x);
    } else if dr == -1 && dc == 1 {
        assert(dirs[4] == (-1int, 1int));
        assert(h[l3] as int == x);
    } else if dr == 1 && dc == -1 {
        assert(dirs[5] == (1int, -1int));
        assert(h[l4] as int == x);
    }
}

} // verus!
