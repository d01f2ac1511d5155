//! Draughts (checkers): one flag-driven engine backing the national variants.
//!
//! Captures are full atomic paths: a move is the piece's path (start square, then each
//! landing square) plus the squares of the pieces it jumps. Jumped pieces stay on the
//! working board as blockers until the move completes and may not be jumped twice.
//! Flying kings slide and may land on any empty square beyond the jumped piece. With
//! `promote_mid` a man touching its kings row mid-chain continues as a king.
use vstd::prelude::*;
use crate::outcome::{Outcome, lemma_distinct_bounded};
use crate::text::{push_char, push_dec, push_joined, chars_of, parse_u16_list, join_nums, parse_list, u16s, lemma_parse_list_join, dec};

verus! {

/// Draw after this many plies without a capture or a man-move.
pub const DRAW_PLIES: u32 = 40;
/// Material weights, in centi-man units. King is worth about 1.7 men.
pub const MAN_VAL: i64 = 100;
pub const KING_VAL: i64 = 175;
/// Weight on the (my legal moves - your legal moves) mobility term.
pub const MOBILITY: i64 = 4;

#[derive(Clone, Copy, PartialEq, Eq, Debug, Structural)]
pub enum Cell {
    Empty,
    Man(u8),
    King(u8),
}

/// A full draughts move: the piece's path (start cell, then each landing cell), plus the
/// squares of every piece it captures.
#[derive(Clone, Debug, PartialEq, Eq)]
pub struct DMove {
    pub path: Vec<u16>,
    pub captured: Vec<u16>,
}

#[derive(Clone, Debug)]
pub struct Draughts {
    pub n: usize,
    pub grid: Vec<Cell>,
    pub current: u8,
    pub flying: bool,
    pub men_back: bool,
    pub max_capture: bool,
    pub promote_mid: bool,
    pub misere: bool,
    /// Italian: a man may not jump a king.
    pub men_no_king: bool,
    /// Capture-priority mode: 0 = none, 1 = Spanish, 2 = Italian.
    pub capture_priority: u8,
    /// Plies since the last capture or man-move.
    pub no_progress: u32,
}

/// `c` holds a piece of the opponent of `owner`.
pub open spec fn enemy(c: Cell, owner: u8) -> bool {
    match c {
        Cell::Man(o) => o != owner,
        Cell::King(o) => o != owner,
        Cell::Empty => false,
    }
}

pub open spec fn ray_r(n: int, s: int, dr: int, k: int) -> int {
    s / n + dr * k
}

pub open spec fn ray_c(n: int, s: int, dc: int, k: int) -> int {
    s % n + dc * k
}

/// The square `k` steps from `s` along `(dr, dc)` is on the `n`-by-`n` board.
pub open spec fn on_ray(n: int, s: int, dr: int, dc: int, k: int) -> bool {
    0 <= ray_r(n, s, dr, k) < n && 0 <= ray_c(n, s, dc, k) < n
}

/// The square `k` steps from `s` along `(dr, dc)`.
pub open spec fn ray_sq(n: int, s: int, dr: int, dc: int, k: int) -> int {
    ray_r(n, s, dr, k) * n + ray_c(n, s, dc, k)
}

pub open spec fn empty_on(bd: Seq<Cell>, n: int, s: int, dr: int, dc: int, k: int) -> bool {
    on_ray(n, s, dr, dc, k) && bd[ray_sq(n, s, dr, dc, k)] == Cell::Empty
}

pub open spec fn is_diag(dr: int, dc: int) -> bool {
    (dr == 1 || dr == -1) && (dc == 1 || dc == -1)
}

/// Row direction in which the men of `owner` advance.
pub open spec fn forward(owner: u8) -> int {
    if owner == 0 {
        -1
    } else {
        1
    }
}

/// Kings row of `owner`: seat 0 marches up to row 0, seat 1 down to the last row.
pub open spec fn promo_row_spec(n: int, owner: u8) -> int {
    if owner == 0 {
        0
    } else {
        n - 1
    }
}

/// `m` extends the partial chain `(path, captured)`.
pub open spec fn extends(m: DMove, path: Seq<u16>, captured: Seq<u16>) -> bool {
    &&& m.path@.len() >= path.len()
    &&& m.path@.take(path.len() as int) == path
    &&& m.captured@.len() >= captured.len()
    &&& m.captured@.take(captured.len() as int) == captured
}

impl Draughts {
    pub open spec fn wf(&self) -> bool {
        &&& 2 <= self.n <= 255
        &&& self.n * self.n <= 65025
        &&& self.grid@.len() == self.n * self.n
        &&& self.current <= 1
        &&& self.capture_priority <= 2
    }

    /// A single jump from `s` along `(dr, dc)` over the piece `d` steps away, landing
    /// `e` steps away, for a piece of `owner` that is a king iff `king`, with the
    /// squares in `prior` already jumped earlier in the chain.
    pub open spec fn jump(
        &self,
        bd: Seq<Cell>,
        s: int,
        king: bool,
        owner: u8,
        prior: Seq<u16>,
        dr: int,
        dc: int,
        d: int,
        e: int,
    ) -> bool {
        let n = self.n as int;
        &&& is_diag(dr, dc)
        &&& on_ray(n, s, dr, dc, d)
        &&& enemy(bd[ray_sq(n, s, dr, dc, d)], owner)
        &&& !prior.contains(ray_sq(n, s, dr, dc, d) as u16)
        &&& if king && self.flying {
            &&& 1 <= d < e
            &&& forall|k: int| 1 <= k < d ==> #[trigger] empty_on(bd, n, s, dr, dc, k)
            &&& forall|k: int| d < k <= e ==> #[trigger] empty_on(bd, n, s, dr, dc, k)
        } else {
            &&& d == 1
            &&& e == 2
            &&& empty_on(bd, n, s, dr, dc, 2)
            &&& (king || self.men_back || dr == forward(owner))
            &&& !(!king && self.men_no_king && bd[ray_sq(n, s, dr, dc, 1)] is King)
        }
    }

    pub open spec fn can_jump_dir(&self, bd: Seq<Cell>, s: int, king: bool, owner: u8, prior: Seq<u16>, dr: int, dc: int) -> bool {
        exists|d: int, e: int| #[trigger] self.jump(bd, s, king, owner, prior, dr, dc, d, e)
    }

    /// Some jump is available from `s`.
    pub open spec fn can_jump(&self, bd: Seq<Cell>, s: int, king: bool, owner: u8, prior: Seq<u16>) -> bool {
        exists|dr: int, dc: int| #[trigger] self.can_jump_dir(bd, s, king, owner, prior, dr, dc)
    }

    /// The moving piece is a king at step `i` of `path`: it started as one, or (with
    /// `promote_mid`) it touched its kings row at one of the landings so far.
    pub open spec fn king_at(&self, path: Seq<u16>, king0: bool, owner: u8, i: int) -> bool {
        king0 || (self.promote_mid && exists|j: int|
            1 <= j <= i && #[trigger] (path[j] as int / self.n as int) == promo_row_spec(self.n as int, owner))
    }

    /// Step `i` of the chain is a legal jump.
    pub open spec fn step_ok(&self, bd: Seq<Cell>, path: Seq<u16>, captured: Seq<u16>, king0: bool, owner: u8, i: int) -> bool {
        exists|dr: int, dc: int, d: int, e: int|
            {
                &&& #[trigger] self.jump(bd, path[i] as int, self.king_at(path, king0, owner, i), owner, captured.take(i), dr, dc, d, e)
                &&& captured[i] as int == ray_sq(self.n as int, path[i] as int, dr, dc, d)
                &&& path[i + 1] as int == ray_sq(self.n as int, path[i] as int, dr, dc, e)
            }
    }

    /// Every step of `(path, captured)` is a legal jump.
    pub open spec fn valid_chain(&self, bd: Seq<Cell>, path: Seq<u16>, captured: Seq<u16>, king0: bool, owner: u8) -> bool {
        &&& path.len() == captured.len() + 1
        &&& forall|i: int| 0 <= i < captured.len() ==> #[trigger] self.step_ok(bd, path, captured, king0, owner, i)
    }

    /// A legal capture chain of at least one jump after which no further jump exists.
    pub open spec fn complete_chain(&self, bd: Seq<Cell>, path: Seq<u16>, captured: Seq<u16>, king0: bool, owner: u8) -> bool {
        &&& self.valid_chain(bd, path, captured, king0, owner)
        &&& path.len() >= 2
        &&& !self.can_jump(bd, path.last() as int, self.king_at(path, king0, owner, path.len() - 1), owner, captured)
    }

    /// `m` is a complete chain extending `(path, captured)`.
    pub open spec fn emitted(&self, m: DMove, bd: Seq<Cell>, path: Seq<u16>, captured: Seq<u16>, king0: bool, owner: u8) -> bool {
        &&& extends(m, path, captured)
        &&& self.complete_chain(bd, m.path@, m.captured@, king0, owner)
    }
}

proof fn lemma_ray_sq_bound(n: int, s: int, dr: int, dc: int, k: int)
    requires
        n >= 1,
        on_ray(n, s, dr, dc, k),
    ensures
        0 <= ray_sq(n, s, dr, dc, k) < n * n,
        ray_sq(n, s, dr, dc, k) / n == ray_r(n, s, dr, k),
        ray_sq(n, s, dr, dc, k) % n == ray_c(n, s, dc, k),
{
    let (a, b) = (ray_r(n, s, dr, k), ray_c(n, s, dc, k));
    assert(0 <= a * n + b < n * n) by (nonlinear_arith)
        requires
            0 <= a < n,
            0 <= b < n,
    ;
    vstd::arithmetic::div_mod::lemma_fundamental_div_mod_converse(a * n + b, n, a, b);
}

/// Row and column of a square of the `n`-by-`n` board.
pub proof fn lemma_sq_rc(n: int, s: int)
    requires
        n >= 1,
        0 <= s < n * n,
    ensures
        0 <= s / n < n,
        0 <= s % n < n,
        s == (s / n) * n + s % n,
{
    vstd::arithmetic::div_mod::lemma_fundamental_div_mod(s, n);
    vstd::arithmetic::div_mod::lemma_mod_bound(s, n);
    vstd::arithmetic::div_mod::lemma_div_pos_is_pos(s, n);
    let q = s / n;
    let m = s % n;
    assert(n * q == q * n) by (nonlinear_arith);
    assert(q < n) by (nonlinear_arith)
        requires
            s == q * n + m,
            0 <= m < n,
            s < n * n,
            n >= 1,
    ;
}

/// A ray that is on the board at steps `0` and `k2` is on it at every step in between.
proof fn lemma_on_ray_between(n: int, s: int, dr: int, dc: int, k1: int, k2: int)
    requires
        n >= 1,
        0 <= s < n * n,
        is_diag(dr, dc),
        1 <= k1 <= k2,
        on_ray(n, s, dr, dc, k2),
    ensures
        on_ray(n, s, dr, dc, k1),
{
    lemma_sq_rc(n, s);
    assert(on_ray(n, s, dr, dc, k1)) by (nonlinear_arith)
        requires
            0 <= s / n < n,
            0 <= s % n < n,
            dr == 1 || dr == -1,
            dc == 1 || dc == -1,
            1 <= k1 <= k2,
            0 <= s / n + dr * k2 < n,
            0 <= s % n + dc * k2 < n,
    ;
}

/// `d * k` for a unit step `d`.
fn times(d: i64, k: i64) -> (p: i64)
    requires
        -1 <= d <= 1,
        -0x1000 <= k <= 0x1000,
    ensures
        p == d * k,
        -0x1000 <= p <= 0x1000,
{
    if d == 0 {
        assert(d * k == 0) by (nonlinear_arith)
            requires
                d == 0,
        ;
        0
    } else if d > 0 {
        assert(d * k == k) by (nonlinear_arith)
            requires
                d == 1,
        ;
        k
    } else {
        assert(d * k == -k) by (nonlinear_arith)
            requires
                d == -1,
        ;
        -k
    }
}

/// Position of a diagonal direction in the generation order.
pub open spec fn dir_index(dr: int, dc: int) -> int {
    if dr == -1 {
        if dc == -1 {
            0
        } else {
            1
        }
    } else if dc == -1 {
        2
    } else {
        3
    }
}

pub open spec fn dir_r(i: int) -> int {
    if i < 2 {
        -1
    } else {
        1
    }
}

pub open spec fn dir_c(i: int) -> int {
    if i % 2 == 0 {
        -1
    } else {
        1
    }
}

/// The unit step in the direction of the sign of `x`.
pub open spec fn unit(x: int) -> int {
    if x < 0 {
        -1
    } else {
        1
    }
}

pub open spec fn abs_int(x: int) -> int {
    if x < 0 {
        -x
    } else {
        x
    }
}

/// Rank of the diagonal step from `s` to `t` in generation order: its direction
/// (up-left, up-right, down-left, down-right), then its length.
pub open spec fn land_key(n: int, s: int, t: int) -> int {
    let dr = t / n - s / n;
    let dc = t % n - s % n;
    dir_index(unit(dr), unit(dc)) * (n + 1) + abs_int(dr)
}

/// The paths `a` and `b` agree up to their square `i`, and the next step of `a`
/// ranks before that of `b`.
pub open spec fn diverges_before(n: int, a: Seq<u16>, b: Seq<u16>, i: int) -> bool {
    &&& 0 <= i
    &&& i + 1 < a.len()
    &&& i + 1 < b.len()
    &&& a.take(i + 1) == b.take(i + 1)
    &&& land_key(n, a[i] as int, a[i + 1] as int) < land_key(n, b[i] as int, b[i + 1] as int)
}

/// Generation order of moves: by starting square, then by the first step at which
/// the paths part.
pub open spec fn precedes(n: int, a: Seq<u16>, b: Seq<u16>) -> bool {
    a[0] < b[0] || exists|i: int| #[trigger] diverges_before(n, a, b, i)
}

/// The moves of `v` from index `lo` on come in strict generation order.
pub open spec fn in_order(n: int, v: Seq<DMove>, lo: int) -> bool {
    forall|i: int, j: int| lo <= i < j < v.len() ==> precedes(n, #[trigger] v[i].path@, #[trigger] v[j].path@)
}

/// The rank of a ray square is its direction's, then its distance.
proof fn lemma_land_key(n: int, s: int, dr: int, dc: int, k: int)
    requires
        n >= 1,
        0 <= s < n * n,
        is_diag(dr, dc),
        k >= 1,
        on_ray(n, s, dr, dc, k),
    ensures
        land_key(n, s, ray_sq(n, s, dr, dc, k)) == dir_index(dr, dc) * (n + 1) + k,
        k < n,
        0 <= ray_sq(n, s, dr, dc, k) < n * n,
{
    lemma_sq_rc(n, s);
    lemma_ray_sq_bound(n, s, dr, dc, k);
    let t = ray_sq(n, s, dr, dc, k);
    assert(t / n - s / n == dr * k);
    assert(t % n - s % n == dc * k);
    if dr == 1 {
        assert(dr * k == k) by (nonlinear_arith) requires dr == 1;
    } else {
        assert(dr * k == -k) by (nonlinear_arith) requires dr == -1;
    }
    if dc == 1 {
        assert(dc * k == k) by (nonlinear_arith) requires dc == 1;
    } else {
        assert(dc * k == -k) by (nonlinear_arith) requires dc == -1;
    }
}

/// Direction indices tell the four diagonals apart.
proof fn lemma_dir_index_inj(dr: int, dc: int, dr2: int, dc2: int)
    requires
        is_diag(dr, dc),
        is_diag(dr2, dc2),
        dir_index(dr, dc) == dir_index(dr2, dc2),
    ensures
        dr == dr2,
        dc == dc2,
{
}

/// Ranks in direction `i` lie strictly between `i * (n + 1)` and `(i + 1) * (n + 1)`.
proof fn lemma_key_band(n: int, i: int, k: int, di: int)
    requires
        n >= 1,
        0 <= i,
        1 <= k <= n,
        0 <= di,
    ensures
        i < di ==> i * (n + 1) + k < di * (n + 1),
        i > di ==> i * (n + 1) + k >= (di + 1) * (n + 1),
        i == di ==> di * (n + 1) < i * (n + 1) + k < (di + 1) * (n + 1),
{
    if i < di {
        assert(i * (n + 1) <= (di - 1) * (n + 1)) by (nonlinear_arith)
            requires
                i <= di - 1,
                n >= 1,
        ;
        assert((di - 1) * (n + 1) == di * (n + 1) - (n + 1)) by (nonlinear_arith);
    }
    if i > di {
        assert(i * (n + 1) + k >= (di + 1) * (n + 1)) by (nonlinear_arith)
            requires
                i >= di + 1,
                k >= 1,
                n >= 1,
        ;
    }
    if i == di {
        assert((di + 1) * (n + 1) == di * (n + 1) + n + 1) by (nonlinear_arith);
    }
}

proof fn lemma_key_band_all(n: int, di: int)
    ensures
        (di + 1) * (n + 1) == di * (n + 1) + n + 1,
{
    assert((di + 1) * (n + 1) == di * (n + 1) + n + 1) by (nonlinear_arith);
}

/// Ranks of steps of length below `n + 1` tell their directions and lengths apart.
proof fn lemma_land_key_inj(n: int, dr: int, dc: int, k: int, dr2: int, dc2: int, k2: int)
    requires
        n >= 1,
        is_diag(dr, dc),
        is_diag(dr2, dc2),
        1 <= k <= n,
        1 <= k2 <= n,
        dir_index(dr, dc) * (n + 1) + k == dir_index(dr2, dc2) * (n + 1) + k2,
    ensures
        dr == dr2,
        dc == dc2,
        k == k2,
{
    let i = dir_index(dr, dc);
    let j = dir_index(dr2, dc2);
    if i < j {
        assert(i * (n + 1) + k < j * (n + 1) + k2) by (nonlinear_arith)
            requires
                i < j,
                1 <= k <= n,
                1 <= k2,
        ;
    }
    if j < i {
        assert(j * (n + 1) + k2 < i * (n + 1) + k) by (nonlinear_arith)
            requires
                j < i,
                1 <= k2 <= n,
                1 <= k,
        ;
    }
}

fn contains_u16(v: &Vec<u16>, x: u16) -> (res: bool)
    ensures
        res == v@.contains(x),
{
    let mut i: usize = 0;
    while i < v.len()
        invariant
            i <= v@.len(),
            forall|j: int| 0 <= j < i ==> v@[j] != x,
        decreases v@.len() - i,
    {
        if v[i] == x {
            return true;
        }
        i += 1;
    }
    false
}

fn copy_u16s(v: &Vec<u16>) -> (res: Vec<u16>)
    ensures
        res@ == v@,
{
    let mut res: Vec<u16> = Vec::new();
    let mut i: usize = 0;
    while i < v.len()
        invariant
            i <= v@.len(),
            res@ == v@.take(i as int),
        decreases v@.len() - i,
    {
        res.push(v[i]);
        i += 1;
        assert(res@ =~= v@.take(i as int));
    }
    assert(v@.take(v@.len() as int) =~= v@);
    res
}

impl Draughts {
    #[inline]
    fn in_bounds(&self, r: i64, c: i64) -> (res: bool)
        requires
            self.wf(),
        ensures
            res == (0 <= r < self.n && 0 <= c < self.n),
    {
        r >= 0 && r < self.n as i64 && c >= 0 && c < self.n as i64
    }

    /// Distance of the first square at or after step `from` along `(dr, dc)` from `s`
    /// that is off the board or occupied.
    fn first_block(&self, bd: &Vec<Cell>, s: usize, dr: i64, dc: i64, from: i64) -> (d: i64)
        requires
            self.wf(),
            bd@.len() == self.n * self.n,
            s < bd@.len(),
            is_diag(dr as int, dc as int),
            1 <= from <= self.n + 1,
        ensures
            from <= d <= self.n + 1,
            forall|k: int| from <= k < d ==> #[trigger] empty_on(bd@, self.n as int, s as int, dr as int, dc as int, k),
            !empty_on(bd@, self.n as int, s as int, dr as int, dc as int, d as int),
    {
        let ghost n = self.n as int;
        proof {
            lemma_sq_rc(n, s as int);
        }
        let r = (s / self.n) as i64;
        let c = (s % self.n) as i64;
        let mut d: i64 = from;
        loop
            invariant
                self.wf(),
                bd@.len() == n * n,
                n == self.n,
                2 <= n <= 255,
                s < bd@.len(),
                is_diag(dr as int, dc as int),
                r == s as int / n,
                c == s as int % n,
                0 <= r < n,
                0 <= c < n,
                1 <= from <= d <= n + 1,
                forall|k: int| from <= k < d ==> #[trigger] empty_on(bd@, n, s as int, dr as int, dc as int, k),
            ensures
                from <= d <= n + 1,
                forall|k: int| from <= k < d ==> #[trigger] empty_on(bd@, n, s as int, dr as int, dc as int, k),
                !empty_on(bd@, n, s as int, dr as int, dc as int, d as int),
            decreases n + 1 - d,
        {
            if d > self.n as i64 {
                proof {
                    assert(!on_ray(n, s as int, dr as int, dc as int, d as int)) by (nonlinear_arith)
                        requires
                            0 <= r < n,
                            dr == 1 || dr == -1,
                            d > n,
                            r == s as int / n,
                    ;
                }
                return d;
            }
            let rr = r + times(dr, d);
            let cc = c + times(dc, d);
            if !self.in_bounds(rr, cc) {
                return d;
            }
            proof {
                lemma_ray_sq_bound(n, s as int, dr as int, dc as int, d as int);
            }
            let t = (rr as usize) * self.n + cc as usize;
            if bd[t] != Cell::Empty {
                return d;
            }
            d += 1;
        }
    }

    /// `sq / n` and `sq % n` as signed coordinates.
    fn coords(&self, sq: usize) -> (rc: (i64, i64))
        requires
            self.wf(),
            sq < self.n * self.n,
        ensures
            rc.0 == sq as int / self.n as int,
            rc.1 == sq as int % self.n as int,
            0 <= rc.0 < self.n,
            0 <= rc.1 < self.n,
    {
        proof {
            lemma_sq_rc(self.n as int, sq as int);
        }
        ((sq / self.n) as i64, (sq % self.n) as i64)
    }

    /// The square `k` steps from `sq` along `(dr, dc)`, when it is on the board.
    fn ray_at(&self, sq: usize, dr: i64, dc: i64, k: i64) -> (t: Option<usize>)
        requires
            self.wf(),
            sq < self.n * self.n,
            is_diag(dr as int, dc as int),
            0 <= k <= 0x1000,
        ensures
            t is Some <==> on_ray(self.n as int, sq as int, dr as int, dc as int, k as int),
            t matches Some(x) ==> x == ray_sq(self.n as int, sq as int, dr as int, dc as int, k as int) && x < self.n * self.n,
    {
        let (r, c) = self.coords(sq);
        let rr = r + times(dr, k);
        let cc = c + times(dc, k);
        if !self.in_bounds(rr, cc) {
            return None;
        }
        proof {
            lemma_ray_sq_bound(self.n as int, sq as int, dr as int, dc as int, k as int);
        }
        Some((rr as usize) * self.n + cc as usize)
    }
}


impl Draughts {
    proof fn lemma_king_at_push(&self, p: Seq<u16>, x: u16, king0: bool, owner: u8)
        requires
            p.len() >= 1,
        ensures
            forall|i: int| 0 <= i < p.len() ==> #[trigger] self.king_at(p.push(x), king0, owner, i) == self.king_at(p, king0, owner, i),
            self.king_at(p.push(x), king0, owner, p.len() as int) == (self.king_at(p, king0, owner, p.len() - 1) || (self.promote_mid
                && (x as int / self.n as int) == promo_row_spec(self.n as int, owner))),
    {
        let q = p.push(x);
        assert forall|i: int| 0 <= i < p.len() implies #[trigger] self.king_at(q, king0, owner, i) == self.king_at(p, king0, owner, i) by {
            assert forall|j: int| 1 <= j <= i implies q[j] == p[j] by {}
        }
        let i = p.len() as int;
        assert(q[i] == x);
        assert forall|j: int| 1 <= j <= i - 1 implies q[j] == p[j] by {}
        if self.king_at(q, king0, owner, i) && !king0 && self.promote_mid {
            let j = choose|j: int| 1 <= j <= i && #[trigger] (q[j] as int / self.n as int) == promo_row_spec(self.n as int, owner);
            if j < i {
                assert(p[j] == q[j]);
            }
        }
        if self.king_at(p, king0, owner, i - 1) && !king0 && self.promote_mid {
            let j = choose|j: int| 1 <= j <= i - 1 && #[trigger] (p[j] as int / self.n as int) == promo_row_spec(self.n as int, owner);
            assert(q[j] == p[j]);
        }
    }

    /// Whether the piece is a king at step `i` depends only on the path up to `i`.
    proof fn lemma_king_at_prefix(&self, a: Seq<u16>, b: Seq<u16>, king0: bool, owner: u8, i: int)
        requires
            0 <= i < b.len() <= a.len(),
            a.take(b.len() as int) == b,
        ensures
            self.king_at(a, king0, owner, i) == self.king_at(b, king0, owner, i),
    {
        assert forall|j: int| 0 <= j <= i implies a[j] == b[j] by {
            assert(a.take(b.len() as int)[j] == a[j]);
        }
        if self.king_at(a, king0, owner, i) && !king0 {
            let j = choose|j: int| 1 <= j <= i && #[trigger] (a[j] as int / self.n as int) == promo_row_spec(self.n as int, owner);
            assert(b[j] == a[j]);
        }
        if self.king_at(b, king0, owner, i) && !king0 {
            let j = choose|j: int| 1 <= j <= i && #[trigger] (b[j] as int / self.n as int) == promo_row_spec(self.n as int, owner);
            assert(b[j] == a[j]);
        }
    }

    /// The step by which a complete chain leaves the partial chain `(path0, cap0)`.
    proof fn lemma_first_step(&self, m: DMove, bd: Seq<Cell>, path0: Seq<u16>, cap0: Seq<u16>, king0: bool, owner: u8) -> (w: (
        int,
        int,
        int,
        int,
    ))
        requires
            self.wf(),
            bd.len() == self.n * self.n,
            path0.len() >= 1,
            (path0.last() as int) < bd.len(),
            self.valid_chain(bd, path0, cap0, king0, owner),
            self.emitted(m, bd, path0, cap0, king0, owner),
            m.path@.len() > path0.len(),
        ensures
            self.jump(bd, path0.last() as int, self.king_at(path0, king0, owner, path0.len() - 1), owner, cap0, w.0, w.1, w.2, w.3),
            m.captured@[cap0.len() as int] as int == ray_sq(self.n as int, path0.last() as int, w.0, w.1, w.2),
            m.path@[path0.len() as int] as int == ray_sq(self.n as int, path0.last() as int, w.0, w.1, w.3),
            land_key(self.n as int, path0.last() as int, m.path@[path0.len() as int] as int) == dir_index(w.0, w.1) * (
            self.n + 1) + w.3,
            is_diag(w.0, w.1),
            1 <= w.3 < self.n,
            m.path@.take(path0.len() + 1int) == path0.push(m.path@[path0.len() as int]),
            m.captured@.take(cap0.len() + 1int) == cap0.push(m.captured@[cap0.len() as int]),
    {
        let n = self.n as int;
        let l = path0.len() as int;
        let p = m.path@;
        let c = m.captured@;
        let sq = path0.last() as int;
        assert(p.take(l)[l - 1] == p[l - 1]);
        assert(p[l - 1] == sq);
        assert(self.step_ok(bd, p, c, king0, owner, l - 1));
        let (a, b, f, g) = choose|a: int, b: int, f: int, g: int|
            {
                &&& #[trigger] self.jump(bd, p[l - 1] as int, self.king_at(p, king0, owner, l - 1), owner, c.take(l - 1), a, b, f, g)
                &&& c[l - 1] as int == ray_sq(n, p[l - 1] as int, a, b, f)
                &&& p[l] as int == ray_sq(n, p[l - 1] as int, a, b, g)
            };
        self.lemma_king_at_prefix(p, path0, king0, owner, l - 1);
        assert(c.take(l - 1) == cap0);
        if self.king_at(path0, king0, owner, l - 1) && self.flying {
            assert(empty_on(bd, n, sq, a, b, g));
        } else {
            assert(empty_on(bd, n, sq, a, b, 2));
        }
        lemma_land_key(n, sq, a, b, g);
        assert(p.take(l + 1) =~= path0.push(p[l]));
        assert(c.take(l) =~= cap0.push(c[l - 1]));
        (a, b, f, g)
    }

    /// Appending a legal jump to a legal chain gives a legal chain.
    proof fn lemma_extend_chain(
        &self,
        bd: Seq<Cell>,
        p: Seq<u16>,
        c: Seq<u16>,
        king0: bool,
        owner: u8,
        dr: int,
        dc: int,
        d: int,
        e: int,
    )
        requires
            self.wf(),
            p.len() >= 1,
            self.valid_chain(bd, p, c, king0, owner),
            self.jump(bd, p.last() as int, self.king_at(p, king0, owner, p.len() - 1), owner, c, dr, dc, d, e),
            0 <= ray_sq(self.n as int, p.last() as int, dr, dc, d) < 65536,
            0 <= ray_sq(self.n as int, p.last() as int, dr, dc, e) < 65536,
        ensures
            self.valid_chain(
                bd,
                p.push(ray_sq(self.n as int, p.last() as int, dr, dc, e) as u16),
                c.push(ray_sq(self.n as int, p.last() as int, dr, dc, d) as u16),
                king0,
                owner,
            ),
    {
        let n = self.n as int;
        let s = p.last() as int;
        let x = ray_sq(n, s, dr, dc, e) as u16;
        let y = ray_sq(n, s, dr, dc, d) as u16;
        let q = p.push(x);
        let cc = c.push(y);
        self.lemma_king_at_push(p, x, king0, owner);
        assert forall|i: int| 0 <= i < cc.len() implies #[trigger] self.step_ok(bd, q, cc, king0, owner, i) by {
            if i < c.len() {
                assert(self.step_ok(bd, p, c, king0, owner, i));
                let (a, b, f, g) = choose|a: int, b: int, f: int, g: int|
                    {
                        &&& #[trigger] self.jump(bd, p[i] as int, self.king_at(p, king0, owner, i), owner, c.take(i), a, b, f, g)
                        &&& c[i] as int == ray_sq(n, p[i] as int, a, b, f)
                        &&& p[i + 1] as int == ray_sq(n, p[i] as int, a, b, g)
                    };
                assert(cc.take(i) =~= c.take(i));
                assert(q[i] == p[i] && q[i + 1] == p[i + 1] && cc[i] == c[i]);
                assert(self.jump(bd, q[i] as int, self.king_at(q, king0, owner, i), owner, cc.take(i), a, b, f, g));
            } else {
                assert(i == c.len());
                assert(cc.take(i) =~= c);
                assert(q[i] == p.last());
                assert(q[i + 1] == x);
                assert(cc[i] == y);
                assert(self.jump(bd, q[i] as int, self.king_at(q, king0, owner, i), owner, cc.take(i), dr, dc, d, e));
            }
        }
    }
}

/// Some move of `v` from index `lo` on has the path and captures of `m`.
pub open spec fn among_from(m: DMove, v: Seq<DMove>, lo: int) -> bool {
    exists|j: int| lo <= j < v.len() && same_move(m, #[trigger] v[j])
}

proof fn lemma_among_grows(m: DMove, v: Seq<DMove>, w: Seq<DMove>, lo: int)
    requires
        0 <= lo,
        w.len() >= v.len(),
        w.take(v.len() as int) == v,
        among_from(m, v, lo),
    ensures
        among_from(m, w, lo),
{
    let j = choose|j: int| lo <= j < v.len() && same_move(m, #[trigger] v[j]);
    assert(w.take(v.len() as int)[j] == w[j]);
}

/// Appending moves that share the prefix `path0` and rank at least `k` at the next
/// step, after moves that share it and rank below `k`, keeps generation order.
proof fn lemma_in_order_join(n: int, v: Seq<DMove>, w: Seq<DMove>, lo: int, path0: Seq<u16>, k: int)
    requires
        0 <= lo <= v.len() <= w.len(),
        w.take(v.len() as int) == v,
        path0.len() >= 1,
        in_order(n, v, lo),
        in_order(n, w, v.len() as int),
        forall|i: int|
            lo <= i < v.len() ==> (#[trigger] v[i]).path@.len() > path0.len() && v[i].path@.take(path0.len() as int) == path0
                && land_key(n, path0.last() as int, v[i].path@[path0.len() as int] as int) < k,
        forall|i: int|
            v.len() <= i < w.len() ==> (#[trigger] w[i]).path@.len() > path0.len() && w[i].path@.take(path0.len() as int) == path0
                && land_key(n, path0.last() as int, w[i].path@[path0.len() as int] as int) >= k,
    ensures
        in_order(n, w, lo),
{
    let l = path0.len() as int;
    assert forall|i: int, j: int| lo <= i < j < w.len() implies precedes(n, #[trigger] w[i].path@, #[trigger] w[j].path@) by {
        if j < v.len() {
            assert(w.take(v.len() as int)[i] == w[i]);
            assert(w.take(v.len() as int)[j] == w[j]);
            assert(precedes(n, v[i].path@, v[j].path@));
        } else if i >= v.len() {
        } else {
            assert(w.take(v.len() as int)[i] == w[i]);
            let a = w[i].path@;
            let b = w[j].path@;
            assert(a.take(l) == path0);
            assert(a[l - 1] == path0[l - 1]) by {
                assert(a.take(l)[l - 1] == a[l - 1]);
            }
            assert(b[l - 1] == path0[l - 1]) by {
                assert(b.take(l)[l - 1] == b[l - 1]);
            }
            assert(diverges_before(n, a, b, l - 1));
        }
    }
}

proof fn lemma_prefix_chain(a: Seq<DMove>, b: Seq<DMove>, c: Seq<DMove>)
    requires
        b.len() >= a.len(),
        b.take(a.len() as int) == a,
        c.len() >= b.len(),
        c.take(b.len() as int) == b,
    ensures
        c.take(a.len() as int) == a,
        forall|i: int| 0 <= i < b.len() ==> #[trigger] c[i] == b[i],
{
    assert forall|i: int| 0 <= i < b.len() implies #[trigger] c[i] == b[i] by {
        assert(c.take(b.len() as int)[i] == c[i]);
    }
    assert(c.take(a.len() as int) =~= a) by {
        assert forall|i: int| 0 <= i < a.len() implies c.take(a.len() as int)[i] == a[i] by {
            assert(b.take(a.len() as int)[i] == b[i]);
        }
    }
}

proof fn lemma_extends_trans(m: DMove, p1: Seq<u16>, c1: Seq<u16>, p0: Seq<u16>, c0: Seq<u16>)
    requires
        extends(m, p1, c1),
        p1.len() >= p0.len(),
        p1.take(p0.len() as int) == p0,
        c1.len() >= c0.len(),
        c1.take(c0.len() as int) == c0,
    ensures
        extends(m, p0, c0),
{
    assert(m.path@.take(p0.len() as int) =~= p1.take(p0.len() as int));
    assert(m.captured@.take(c0.len() as int) =~= c1.take(c0.len() as int));
}


impl Draughts {
    /// A flying-king jump along a direction goes over the first piece met and lands
    /// before the next obstacle.
    proof fn lemma_flying_jump_shape(
        &self,
        bd: Seq<Cell>,
        s: int,
        owner: u8,
        prior: Seq<u16>,
        dr: int,
        dc: int,
        d0: int,
        f: int,
        d: int,
        e: int,
    )
        requires
            self.flying,
            1 <= d0 < f,
            forall|k: int| 1 <= k < d0 ==> #[trigger] empty_on(bd, self.n as int, s, dr, dc, k),
            !empty_on(bd, self.n as int, s, dr, dc, d0),
            forall|k: int| d0 + 1 <= k < f ==> #[trigger] empty_on(bd, self.n as int, s, dr, dc, k),
            !empty_on(bd, self.n as int, s, dr, dc, f),
            self.jump(bd, s, true, owner, prior, dr, dc, d, e),
        ensures
            d == d0,
            d0 < e < f,
    {
        let n = self.n as int;
        assert(!empty_on(bd, n, s, dr, dc, d));
        if d < d0 {
            assert(empty_on(bd, n, s, dr, dc, d));
        }
        if d > d0 {
            assert(empty_on(bd, n, s, dr, dc, d0));
        }
        if e >= f {
            assert(empty_on(bd, n, s, dr, dc, f));
        }
    }

    /// Extend the partial capture chain `(path, captured)` ending at `sq` by every legal
    /// jump, recursively, and append each complete chain to `out`: each once, in
    /// generation order (directions up-left, up-right, down-left, down-right, nearer
    /// landings first).
    #[verifier::rlimit(60)]
    fn chain(
        &self,
        bd: &Vec<Cell>,
        sq: usize,
        is_king: bool,
        owner: u8,
        path: &mut Vec<u16>,
        captured: &mut Vec<u16>,
        out: &mut Vec<DMove>,
        Ghost(king0): Ghost<bool>,
    )
        requires
            self.wf(),
            bd@.len() == self.n * self.n,
            sq < bd@.len(),
            owner <= 1,
            old(path)@.len() >= 1,
            old(path)@.last() == sq,
            old(captured)@.no_duplicates(),
            forall|i: int| 0 <= i < old(captured)@.len() ==> (#[trigger] old(captured)@[i] as int) < bd@.len(),
            self.valid_chain(bd@, old(path)@, old(captured)@, king0, owner),
            is_king == self.king_at(old(path)@, king0, owner, old(path)@.len() - 1),
        ensures
            final(path)@ == old(path)@,
            final(captured)@ == old(captured)@,
            final(out)@.len() >= old(out)@.len(),
            final(out)@.take(old(out)@.len() as int) == old(out)@,
            forall|i: int|
                old(out)@.len() <= i < final(out)@.len() ==> self.emitted(#[trigger] final(out)@[i], bd@, old(path)@, old(captured)@, king0, owner),
            (old(path)@.len() > 1 || self.can_jump(bd@, sq as int, is_king, owner, old(captured)@)) ==> final(out)@.len() > old(out)@.len(),
            in_order(self.n as int, final(out)@, old(out)@.len() as int),
            forall|m: DMove|
                #[trigger] self.emitted(m, bd@, old(path)@, old(captured)@, king0, owner) ==> among_from(m, final(out)@, old(out)@.len() as int),
        decreases bd@.len() - old(captured)@.len(), 1int,
    {
        let ghost n = self.n as int;
        let ghost path0 = path@;
        let ghost cap0 = captured@;
        let ghost out0 = out@;
        let ghost l = path0.len() as int;
        let dirs: [(i64, i64); 4] = [(-1, -1), (-1, 1), (1, -1), (1, 1)];
        let mut extended = false;
        let mut di: usize = 0;
        while di < 4
            invariant
                self.wf(),
                n == self.n,
                bd@.len() == n * n,
                sq < bd@.len(),
                owner <= 1,
                path0.len() >= 1,
                l == path0.len(),
                path0.last() == sq,
                cap0.no_duplicates(),
                forall|i: int| 0 <= i < cap0.len() ==> (#[trigger] cap0[i] as int) < bd@.len(),
                self.valid_chain(bd@, path0, cap0, king0, owner),
                is_king == self.king_at(path0, king0, owner, path0.len() - 1),
                path@ == path0,
                captured@ == cap0,
                cap0 == old(captured)@,
                dirs@ == seq![(-1i64, -1i64), (-1i64, 1i64), (1i64, -1i64), (1i64, 1i64)],
                di <= 4,
                out@.len() >= out0.len(),
                out@.take(out0.len() as int) == out0,
                forall|i: int| out0.len() <= i < out@.len() ==> self.emitted(#[trigger] out@[i], bd@, path0, cap0, king0, owner),
                extended ==> out@.len() > out0.len(),
                !extended ==> out@.len() == out0.len(),
                extended ==> self.can_jump(bd@, sq as int, is_king, owner, cap0),
                !extended ==> forall|i: int| 0 <= i < di ==> !#[trigger] self.can_jump_dir(bd@, sq as int, is_king, owner, cap0, dir_r(i), dir_c(i)),
                in_order(n, out@, out0.len() as int),
                forall|i: int|
                    out0.len() <= i < out@.len() ==> (#[trigger] out@[i]).path@.len() > l && land_key(n, sq as int, out@[i].path@[l] as int)
                        < di * (n + 1),
                forall|m: DMove|
                    #[trigger] self.emitted(m, bd@, path0, cap0, king0, owner) && m.path@.len() > l && land_key(n, sq as int, m.path@[l] as int)
                        < di * (n + 1) ==> among_from(m, out@, out0.len() as int),
            decreases 4 - di,
        {
            let (dr, dc) = dirs[di];
            assert(dr == dir_r(di as int) && dc == dir_c(di as int));
            assert(dir_index(dr as int, dc as int) == di);
            let ghost ext_before = extended;
            let ghost out_b = out@;
            let ghost lo_e: int = 0;
            let ghost hi_e: int = 0;
            if is_king && self.flying {
                let d = self.first_block(bd, sq, dr, dc, 1);
                match self.ray_at(sq, dr, dc, d) {
                    Some(s) => {
                        if enemy_cell(bd[s], owner) && !contains_u16(captured, s as u16) {
                            let f = self.first_block(bd, sq, dr, dc, d + 1);
                            let mut e = d + 1;
                            while e < f
                                invariant
                                    self.wf(),
                                    n == self.n,
                                    bd@.len() == n * n,
                                    sq < bd@.len(),
                                    owner <= 1,
                                    is_king && self.flying,
                                    path0.len() >= 1,
                                    l == path0.len(),
                                    path0.last() == sq,
                                    cap0.no_duplicates(),
                                    forall|i: int| 0 <= i < cap0.len() ==> (#[trigger] cap0[i] as int) < bd@.len(),
                                    self.valid_chain(bd@, path0, cap0, king0, owner),
                                    is_king == self.king_at(path0, king0, owner, path0.len() - 1),
                                    path@ == path0,
                                    captured@ == cap0,
                                    cap0 == old(captured)@,
                                    s < bd@.len(),
                                    is_diag(dr as int, dc as int),
                                    di < 4,
                                    dir_index(dr as int, dc as int) == di,
                                    1 <= d,
                                    d + 1 <= e <= f,
                                    f <= n + 1,
                                    s == ray_sq(n, sq as int, dr as int, dc as int, d as int),
                                    on_ray(n, sq as int, dr as int, dc as int, d as int),
                                    enemy(bd@[s as int], owner),
                                    !cap0.contains(s as u16),
                                    forall|k: int| 1 <= k < d ==> #[trigger] empty_on(bd@, n, sq as int, dr as int, dc as int, k),
                                    !empty_on(bd@, n, sq as int, dr as int, dc as int, d as int),
                                    forall|k: int| d + 1 <= k < f ==> #[trigger] empty_on(bd@, n, sq as int, dr as int, dc as int, k),
                                    !empty_on(bd@, n, sq as int, dr as int, dc as int, f as int),
                                    out@.len() >= out0.len(),
                                    out@.take(out0.len() as int) == out0,
                                    forall|i: int| out0.len() <= i < out@.len() ==> self.emitted(#[trigger] out@[i], bd@, path0, cap0, king0, owner),
                                    extended ==> out@.len() > out0.len(),
                                    !extended ==> out@.len() == out0.len(),
                                    extended ==> self.can_jump(bd@, sq as int, is_king, owner, cap0),
                                    e > d + 1 ==> extended,
                                    ext_before ==> extended,
                                    in_order(n, out@, out0.len() as int),
                                    forall|i: int|
                                        out0.len() <= i < out@.len() ==> (#[trigger] out@[i]).path@.len() > l && land_key(
                                            n,
                                            sq as int,
                                            out@[i].path@[l] as int,
                                        ) < di * (n + 1) + e,
                                    forall|m: DMove|
                                        #[trigger] self.emitted(m, bd@, path0, cap0, king0, owner) && m.path@.len() > l && (land_key(
                                            n,
                                            sq as int,
                                            m.path@[l] as int,
                                        ) < di * (n + 1) || di * (n + 1) + d < land_key(n, sq as int, m.path@[l] as int)) && land_key(
                                            n,
                                            sq as int,
                                            m.path@[l] as int,
                                        ) < di * (n + 1) + e ==> among_from(m, out@, out0.len() as int),
                                decreases f - e,
                            {
                                assert(empty_on(bd@, n, sq as int, dr as int, dc as int, e as int));
                                let ls = match self.ray_at(sq, dr, dc, e) {
                                    Some(x) => x,
                                    None => {
                                        assert(false);
                                        0
                                    },
                                };
                                assert(self.jump(bd@, sq as int, is_king, owner, cap0, dr as int, dc as int, d as int, e as int));
                                assert(self.can_jump_dir(bd@, sq as int, is_king, owner, cap0, dr as int, dc as int));
                                proof {
                                    lemma_land_key(n, sq as int, dr as int, dc as int, e as int);
                                }
                                let ghost ob = out@;
                                self.try_capture(bd, sq, s, ls, is_king, owner, path, captured, out, Ghost(king0),
                                    Ghost((dr as int, dc as int, d as int, e as int)));
                                proof {
                                    lemma_prefix_chain(out0, ob, out@);
                                    assert forall|i: int| ob.len() <= i < out@.len() implies (#[trigger] out@[i]).path@.len() > l
                                        && out@[i].path@.take(l) == path0 && land_key(n, sq as int, out@[i].path@[l] as int) == di * (n + 1) + e by {
                                        assert(extends(out@[i], path0.push(ls as u16), cap0.push(s as u16)));
                                        assert(out@[i].path@.take(l + 1)[l] == out@[i].path@[l]);
                                        assert(out@[i].path@.take(l) =~= out@[i].path@.take(l + 1).take(l));
                                        assert(path0.push(ls as u16).take(l) =~= path0);
                                    }
                                    assert forall|i: int| out0.len() <= i < ob.len() implies (#[trigger] ob[i]).path@.len() > l
                                        && ob[i].path@.take(l) == path0 && land_key(n, sq as int, ob[i].path@[l] as int) < di * (n + 1) + e by {
                                        assert(self.emitted(ob[i], bd@, path0, cap0, king0, owner));
                                    }
                                    lemma_in_order_join(n, ob, out@, out0.len() as int, path0, di * (n + 1) + e);
                                    assert forall|m: DMove|
                                        #[trigger] self.emitted(m, bd@, path0, cap0, king0, owner) && m.path@.len() > l && (land_key(
                                            n,
                                            sq as int,
                                            m.path@[l] as int,
                                        ) < di * (n + 1) || di * (n + 1) + d < land_key(n, sq as int, m.path@[l] as int)) && land_key(
                                            n,
                                            sq as int,
                                            m.path@[l] as int,
                                        ) < di * (n + 1) + e + 1 implies among_from(m, out@, out0.len() as int) by {
                                        if land_key(n, sq as int, m.path@[l] as int) < di * (n + 1) + e {
                                            lemma_among_grows(m, ob, out@, out0.len() as int);
                                        } else {
                                            let w = self.lemma_first_step(m, bd@, path0, cap0, king0, owner);
                                            lemma_land_key_inj(n, w.0, w.1, w.3, dr as int, dc as int, e as int);
                                            self.lemma_flying_jump_shape(bd@, sq as int, owner, cap0, dr as int, dc as int, d as int, f as int, w.2, w.3);
                                            assert(m.path@[l] == ls as u16);
                                            assert(m.captured@[cap0.len() as int] == s as u16);
                                            assert(self.emitted(m, bd@, path0.push(ls as u16), cap0.push(s as u16), king0, owner));
                                            let j = choose|j: int| ob.len() <= j < out@.len() && same_move(m, #[trigger] out@[j]);
                                        }
                                    }
                                }
                                extended = true;
                                e += 1;
                            }
                            proof {
                                if !extended {
                                    assert(e == d + 1);
                                }
                                assert forall|d2: int, e2: int| self.jump(bd@, sq as int, is_king, owner, cap0, dr as int, dc as int, d2, e2) implies d < e2 < f by {
                                    self.lemma_flying_jump_shape(bd@, sq as int, owner, cap0, dr as int, dc as int, d as int, f as int, d2, e2);
                                }
                                lo_e = d as int;
                                hi_e = f as int;
                            }
                        } else {
                            proof {
                                assert forall|d2: int, e2: int| !self.jump(bd@, sq as int, is_king, owner, cap0, dr as int, dc as int, d2, e2) by {
                                    if self.jump(bd@, sq as int, is_king, owner, cap0, dr as int, dc as int, d2, e2) {
                                        assert(!empty_on(bd@, n, sq as int, dr as int, dc as int, d2));
                                        if d2 < d {
                                            assert(empty_on(bd@, n, sq as int, dr as int, dc as int, d2));
                                        }
                                        if d2 > d {
                                            assert(empty_on(bd@, n, sq as int, dr as int, dc as int, d as int));
                                        }
                                    }
                                }
                            }
                        }
                    },
                    None => {
                        proof {
                            assert forall|d2: int, e2: int| !self.jump(bd@, sq as int, is_king, owner, cap0, dr as int, dc as int, d2, e2) by {
                                if self.jump(bd@, sq as int, is_king, owner, cap0, dr as int, dc as int, d2, e2) {
                                    if d2 < d {
                                        assert(empty_on(bd@, n, sq as int, dr as int, dc as int, d2));
                                    }
                                    if d2 > d {
                                        assert(empty_on(bd@, n, sq as int, dr as int, dc as int, d as int));
                                    }
                                }
                            }
                        }
                    },
                }
            } else {
                let allowed = is_king || self.men_back || (owner == 0 && dr == -1) || (owner != 0 && dr == 1);
                if allowed {
                    match self.ray_at(sq, dr, dc, 2) {
                        Some(lsq) => {
                            let osq = match self.ray_at(sq, dr, dc, 1) {
                                Some(x) => x,
                                None => {
                                    proof {
                                        lemma_sq_rc(n, sq as int);
                                        lemma_on_ray_between(n, sq as int, dr as int, dc as int, 1, 2);
                                    }
                                    assert(false);
                                    0
                                },
                            };
                            let blocked_by_king = !is_king && self.men_no_king && is_king_cell(bd[osq]);
                            if !blocked_by_king && enemy_cell(bd[osq], owner) && !contains_u16(captured, osq as u16)
                                && bd[lsq] == Cell::Empty {
                                assert(empty_on(bd@, n, sq as int, dr as int, dc as int, 2));
                                assert(self.jump(bd@, sq as int, is_king, owner, cap0, dr as int, dc as int, 1, 2));
                                assert(self.can_jump_dir(bd@, sq as int, is_king, owner, cap0, dr as int, dc as int));
                                proof {
                                    lemma_land_key(n, sq as int, dr as int, dc as int, 2);
                                }
                                let ghost ob = out@;
                                self.try_capture(bd, sq, osq, lsq, is_king, owner, path, captured, out, Ghost(king0),
                                    Ghost((dr as int, dc as int, 1int, 2int)));
                                proof {
                                    lemma_prefix_chain(out0, ob, out@);
                                    assert forall|i: int| ob.len() <= i < out@.len() implies (#[trigger] out@[i]).path@.len() > l
                                        && out@[i].path@.take(l) == path0 && land_key(n, sq as int, out@[i].path@[l] as int) == di * (n + 1) + 2 by {
                                        assert(extends(out@[i], path0.push(lsq as u16), cap0.push(osq as u16)));
                                        assert(out@[i].path@.take(l + 1)[l] == out@[i].path@[l]);
                                        assert(out@[i].path@.take(l) =~= out@[i].path@.take(l + 1).take(l));
                                        assert(path0.push(lsq as u16).take(l) =~= path0);
                                    }
                                    assert forall|i: int| out0.len() <= i < ob.len() implies (#[trigger] ob[i]).path@.len() > l
                                        && ob[i].path@.take(l) == path0 && land_key(n, sq as int, ob[i].path@[l] as int) < di * (n + 1) + 2 by {
                                        assert(self.emitted(ob[i], bd@, path0, cap0, king0, owner));
                                    }
                                    lemma_in_order_join(n, ob, out@, out0.len() as int, path0, di * (n + 1) + 2);
                                    assert forall|m: DMove|
                                        #[trigger] self.emitted(m, bd@, path0, cap0, king0, owner) && m.path@.len() > l && (land_key(
                                            n,
                                            sq as int,
                                            m.path@[l] as int,
                                        ) < di * (n + 1) || di * (n + 1) + 1 < land_key(n, sq as int, m.path@[l] as int)) && land_key(
                                            n,
                                            sq as int,
                                            m.path@[l] as int,
                                        ) < di * (n + 1) + 3 implies among_from(m, out@, out0.len() as int) by {
                                        if land_key(n, sq as int, m.path@[l] as int) < di * (n + 1) {
                                            lemma_among_grows(m, ob, out@, out0.len() as int);
                                        } else {
                                            let w = self.lemma_first_step(m, bd@, path0, cap0, king0, owner);
                                            lemma_land_key_inj(n, w.0, w.1, w.3, dr as int, dc as int, 2);
                                            assert(m.path@[l] == lsq as u16);
                                            assert(m.captured@[cap0.len() as int] == osq as u16);
                                            assert(self.emitted(m, bd@, path0.push(lsq as u16), cap0.push(osq as u16), king0, owner));
                                            let j = choose|j: int| ob.len() <= j < out@.len() && same_move(m, #[trigger] out@[j]);
                                        }
                                    }
                                    assert forall|d2: int, e2: int| self.jump(bd@, sq as int, is_king, owner, cap0, dr as int, dc as int, d2, e2) implies 1 < e2 < 3 by {}
                                    lo_e = 1;
                                    hi_e = 3;
                                }
                                extended = true;
                            } else {
                                assert forall|d2: int, e2: int| !self.jump(bd@, sq as int, is_king, owner, cap0, dr as int, dc as int, d2, e2) by {
                                    if self.jump(bd@, sq as int, is_king, owner, cap0, dr as int, dc as int, d2, e2) {
                                        assert(d2 == 1 && e2 == 2);
                                    }
                                }
                            }
                        },
                        None => {
                            assert forall|d2: int, e2: int| !self.jump(bd@, sq as int, is_king, owner, cap0, dr as int, dc as int, d2, e2) by {
                                if self.jump(bd@, sq as int, is_king, owner, cap0, dr as int, dc as int, d2, e2) {
                                    assert(empty_on(bd@, n, sq as int, dr as int, dc as int, 2));
                                }
                            }
                        },
                    }
                } else {
                    assert forall|d2: int, e2: int| !self.jump(bd@, sq as int, is_king, owner, cap0, dr as int, dc as int, d2, e2) by {}
                }
            }
            proof {
                assert(0 <= lo_e <= hi_e <= n + 1);
                assert(forall|d2: int, e2: int| self.jump(bd@, sq as int, is_king, owner, cap0, dr as int, dc as int, d2, e2) ==> lo_e < e2 < hi_e);
                if !extended {
                    assert(!ext_before);
                    assert(!self.can_jump_dir(bd@, sq as int, is_king, owner, cap0, dr as int, dc as int));
                }
                lemma_key_band_all(n, di as int);
                assert forall|i: int|
                    out0.len() <= i < out@.len() implies (#[trigger] out@[i]).path@.len() > l && land_key(n, sq as int, out@[i].path@[l] as int)
                        < (di + 1) * (n + 1) by {}
                assert forall|m: DMove|
                    #[trigger] self.emitted(m, bd@, path0, cap0, king0, owner) && m.path@.len() > l && land_key(n, sq as int, m.path@[l] as int)
                        < (di + 1) * (n + 1) implies among_from(m, out@, out0.len() as int) by {
                    let w = self.lemma_first_step(m, bd@, path0, cap0, king0, owner);
                    lemma_key_band(n, dir_index(w.0, w.1), w.3, di as int);
                    if dir_index(w.0, w.1) == di {
                        lemma_dir_index_inj(w.0, w.1, dr as int, dc as int);
                        assert(self.jump(bd@, sq as int, is_king, owner, cap0, dr as int, dc as int, w.2, w.3));
                    }
                }
            }
            di += 1;
        }
        proof {
            if !extended {
                assert forall|dr: int, dc: int| !#[trigger] self.can_jump_dir(bd@, sq as int, is_king, owner, cap0, dr, dc) by {
                    if self.can_jump_dir(bd@, sq as int, is_king, owner, cap0, dr, dc) {
                        let (d2, e2) = choose|d2: int, e2: int| self.jump(bd@, sq as int, is_king, owner, cap0, dr, dc, d2, e2);
                        let i = if dr == -1 { if dc == -1 { 0int } else { 1int } } else { if dc == -1 { 2int } else { 3int } };
                        assert(dr == dir_r(i) && dc == dir_c(i));
                        assert(!self.can_jump_dir(bd@, sq as int, is_king, owner, cap0, dir_r(i), dir_c(i)));
                    }
                }
            }
        }
        let ghost out1 = out@;
        if !extended && path.len() > 1 {
            let m = DMove { path: copy_u16s(path), captured: copy_u16s(captured) };
            proof {
                assert(m.path@.take(path0.len() as int) =~= path0);
                assert(m.captured@.take(cap0.len() as int) =~= cap0);
                assert(self.complete_chain(bd@, m.path@, m.captured@, king0, owner));
            }
            out.push(m);
            proof {
                assert(out@.take(out0.len() as int) =~= out0);
                assert(out@.take(out1.len() as int) =~= out1);
            }
        }
        proof {
            assert(out@.take(out1.len() as int) =~= out1);
            assert forall|m: DMove| #[trigger] self.emitted(m, bd@, path0, cap0, king0, owner) implies among_from(m, out@, out0.len() as int) by {
                if m.path@.len() > l {
                    let w = self.lemma_first_step(m, bd@, path0, cap0, king0, owner);
                    lemma_key_band(n, dir_index(w.0, w.1), w.3, 4);
                    lemma_among_grows(m, out1, out@, out0.len() as int);
                } else {
                    assert(m.path@ =~= path0) by {
                        assert(m.path@.take(l) == path0);
                    }
                    assert(m.captured@ =~= cap0) by {
                        assert(m.captured@.take(cap0.len() as int) == cap0);
                    }
                    if extended {
                        assert(self.can_jump(bd@, sq as int, is_king, owner, cap0));
                        assert(false);
                    }
                    assert(same_move(m, out@[out0.len() as int]));
                }
            }
        }
    }

    /// Take the jump over `over_sq` to `land_sq` and continue the chain from there.
    fn try_capture(
        &self,
        bd: &Vec<Cell>,
        sq: usize,
        over_sq: usize,
        land_sq: usize,
        is_king: bool,
        owner: u8,
        path: &mut Vec<u16>,
        captured: &mut Vec<u16>,
        out: &mut Vec<DMove>,
        Ghost(king0): Ghost<bool>,
        Ghost(w): Ghost<(int, int, int, int)>,
    )
        requires
            self.wf(),
            bd@.len() == self.n * self.n,
            sq < bd@.len(),
            owner <= 1,
            old(path)@.len() >= 1,
            old(path)@.last() == sq,
            old(captured)@.no_duplicates(),
            forall|i: int| 0 <= i < old(captured)@.len() ==> (#[trigger] old(captured)@[i] as int) < bd@.len(),
            self.valid_chain(bd@, old(path)@, old(captured)@, king0, owner),
            is_king == self.king_at(old(path)@, king0, owner, old(path)@.len() - 1),
            self.jump(bd@, sq as int, is_king, owner, old(captured)@, w.0, w.1, w.2, w.3),
            over_sq == ray_sq(self.n as int, sq as int, w.0, w.1, w.2),
            land_sq == ray_sq(self.n as int, sq as int, w.0, w.1, w.3),
            over_sq < bd@.len(),
            land_sq < bd@.len(),
        ensures
            final(path)@ == old(path)@,
            final(captured)@ == old(captured)@,
            final(out)@.len() > old(out)@.len(),
            final(out)@.take(old(out)@.len() as int) == old(out)@,
            forall|i: int|
                old(out)@.len() <= i < final(out)@.len() ==> self.emitted(#[trigger] final(out)@[i], bd@, old(path)@, old(captured)@, king0, owner),
            forall|i: int|
                old(out)@.len() <= i < final(out)@.len() ==> self.emitted(
                    #[trigger] final(out)@[i],
                    bd@,
                    old(path)@.push(land_sq as u16),
                    old(captured)@.push(over_sq as u16),
                    king0,
                    owner,
                ),
            in_order(self.n as int, final(out)@, old(out)@.len() as int),
            forall|m: DMove|
                #[trigger] self.emitted(m, bd@, old(path)@.push(land_sq as u16), old(captured)@.push(over_sq as u16), king0, owner)
                    ==> among_from(m, final(out)@, old(out)@.len() as int),
        decreases bd@.len() - old(captured)@.len(), 0int,
    {
        let ghost n = self.n as int;
        let ghost path0 = path@;
        let ghost cap0 = captured@;
        let ghost out0 = out@;
        proof {
            self.lemma_extend_chain(bd@, path0, cap0, king0, owner, w.0, w.1, w.2, w.3);
            self.lemma_king_at_push(path0, land_sq as u16, king0, owner);
        }
        captured.push(over_sq as u16);
        path.push(land_sq as u16);
        let ghost path1 = path@;
        let ghost cap1 = captured@;
        proof {
            assert(cap1.no_duplicates()) by {
                assert forall|a: int, b: int| 0 <= a < cap1.len() && 0 <= b < cap1.len() && a != b implies cap1[a] != cap1[b] by {
                    if a == cap0.len() as int {
                        assert(cap0[b] == cap1[b]);
                    } else if b == cap0.len() as int {
                        assert(cap0[a] == cap1[a]);
                    }
                }
            }
            assert forall|i: int| 0 <= i < cap1.len() implies (#[trigger] cap1[i] as int) < bd@.len() by {
                if i < cap0.len() {
                    assert(cap1[i] == cap0[i]);
                }
            }
            lemma_distinct_bounded(cap1, bd@.len() as int);
        }
        let mut nk = is_king;
        if !is_king && land_sq / self.n == self.promo_row(owner) && self.promote_mid {
            nk = true;
        }
        self.chain(bd, land_sq, nk, owner, path, captured, out, Ghost(king0));
        proof {
            assert forall|i: int| out0.len() <= i < out@.len() implies self.emitted(#[trigger] out@[i], bd@, path0, cap0, king0, owner) by {
                assert(path1.take(path0.len() as int) =~= path0);
                assert(cap1.take(cap0.len() as int) =~= cap0);
                lemma_extends_trans(out@[i], path1, cap1, path0, cap0);
            }
        }
        path.pop();
        captured.pop();
        proof {
            assert(path@ =~= path0);
            assert(captured@ =~= cap0);
        }
    }

    /// Kings row for `owner`.
    fn promo_row(&self, owner: u8) -> (r: usize)
        requires
            self.wf(),
        ensures
            r == promo_row_spec(self.n as int, owner),
    {
        if owner == 0 {
            0
        } else {
            self.n - 1
        }
    }
}

pub fn enemy_cell(c: Cell, owner: u8) -> (res: bool)
    ensures
        res == enemy(c, owner),
{
    match c {
        Cell::Man(o) => o != owner,
        Cell::King(o) => o != owner,
        Cell::Empty => false,
    }
}

pub fn is_king_cell(c: Cell) -> (res: bool)
    ensures
        res == c is King,
{
    match c {
        Cell::King(_) => true,
        _ => false,
    }
}


/// The cell belongs to `owner`.
pub open spec fn owned(c: Cell, owner: u8) -> bool {
    c == Cell::Man(owner) || c == Cell::King(owner)
}

impl Draughts {
    /// The board with the piece on `sq` lifted off.
    pub open spec fn lifted(&self, sq: int) -> Seq<Cell> {
        self.grid@.update(sq, Cell::Empty)
    }

    /// `m` is a complete capture chain of the piece of `owner` on `m.path[0]`.
    pub open spec fn capture_move(&self, m: DMove, owner: u8) -> bool {
        &&& m.path@.len() >= 2
        &&& 0 <= m.path@[0] < self.grid@.len()
        &&& owned(self.grid@[m.path@[0] as int], owner)
        &&& self.complete_chain(
            self.lifted(m.path@[0] as int),
            m.path@,
            m.captured@,
            self.grid@[m.path@[0] as int] is King,
            owner,
        )
    }

    /// The piece of `owner` on `sq` has a first jump.
    pub open spec fn piece_can_capture(&self, sq: int, owner: u8) -> bool {
        &&& 0 <= sq < self.grid@.len()
        &&& owned(self.grid@[sq], owner)
        &&& self.can_jump(self.lifted(sq), sq, self.grid@[sq] is King, owner, Seq::empty())
    }

    /// Some piece of `owner` can capture (captures are then compulsory).
    pub open spec fn any_capture(&self, owner: u8) -> bool {
        exists|sq: int| #[trigger] self.piece_can_capture(sq, owner)
    }

    /// A non-capturing step of the piece of `owner` on `sq` to `t`: a man one square
    /// diagonally forward, a king any number of empty squares along a diagonal (one
    /// square unless kings fly).
    pub open spec fn quiet_step(&self, sq: int, t: int, owner: u8) -> bool {
        let n = self.n as int;
        &&& 0 <= sq < self.grid@.len()
        &&& exists|dr: int, dc: int, d: int|
            {
                &&& is_diag(dr, dc)
                &&& t == ray_sq(n, sq, dr, dc, d)
                &&& 1 <= d
                &&& forall|k: int| 1 <= k <= d ==> #[trigger] empty_on(self.grid@, n, sq, dr, dc, k)
                &&& if self.grid@[sq] == Cell::Man(owner) {
                    dr == forward(owner) && d == 1
                } else {
                    self.grid@[sq] == Cell::King(owner) && (self.flying || d == 1)
                }
            }
    }

    pub open spec fn quiet_move(&self, m: DMove, owner: u8) -> bool {
        &&& m.captured@.len() == 0
        &&& m.path@.len() == 2
        &&& self.quiet_step(m.path@[0] as int, m.path@[1] as int, owner)
    }

    /// `owner` has some legal move.
    pub open spec fn has_move(&self, owner: u8) -> bool {
        self.any_capture(owner) || exists|sq: int, t: int| #[trigger] self.quiet_step(sq, t, owner)
    }

    /// Capture-priority key of a capture move, computed on the pre-capture board;
    /// every component is oriented "higher is better".
    pub open spec fn priority_key(&self, m: DMove) -> (int, int, int, int) {
        let count = m.captured@.len() as int;
        let kings = kings_in(self.grid@, m.captured@, m.captured@.len() as int);
        if self.capture_priority == 1 {
            (count, 0, kings, 0)
        } else {
            let capturer_is_king = if self.grid@[m.path@[0] as int] is King {
                1int
            } else {
                0int
            };
            let fk = first_king(self.grid@, m.captured@, m.captured@.len() as int);
            let earliest = if fk >= 0 {
                -fk
            } else {
                i64::MIN as int
            };
            (count, capturer_is_king, kings, earliest)
        }
    }
}

impl Draughts {
    /// `m` is a capture that the rules let `owner` choose: a complete chain that, under
    /// `max_capture`, takes as many pieces as any other and, under a capture-priority
    /// mode, has a key at least that of any other.
    pub open spec fn best_capture(&self, m: DMove, owner: u8) -> bool {
        &&& self.capture_move(m, owner)
        &&& self.max_capture ==> forall|m2: DMove| #[trigger] self.capture_move(m2, owner) ==> m2.captured@.len() <= m.captured@.len()
        &&& self.capture_priority > 0 ==> forall|m2: DMove|
            #[trigger] self.capture_move(m2, owner) ==> key_le(self.priority_key(m2), self.priority_key(m))
    }
}

/// Moves from a later starting square, appended in order, keep generation order.
proof fn lemma_in_order_start(n: int, v: Seq<DMove>, w: Seq<DMove>, s: int)
    requires
        v.len() <= w.len(),
        w.take(v.len() as int) == v,
        in_order(n, v, 0),
        in_order(n, w, v.len() as int),
        forall|i: int| 0 <= i < v.len() ==> ((#[trigger] v[i]).path@[0] as int) < s,
        forall|i: int| v.len() <= i < w.len() ==> ((#[trigger] w[i]).path@[0] as int) == s,
    ensures
        in_order(n, w, 0),
{
    assert forall|i: int, j: int| 0 <= i < j < w.len() implies precedes(n, #[trigger] w[i].path@, #[trigger] w[j].path@) by {
        if j < v.len() {
            assert(w.take(v.len() as int)[i] == w[i]);
            assert(w.take(v.len() as int)[j] == w[j]);
            assert(precedes(n, v[i].path@, v[j].path@));
        } else if i < v.len() {
            assert(w.take(v.len() as int)[i] == w[i]);
            assert((w[i].path@[0] as int) < s);
        }
    }
}

/// Number of kings among the first `k` captured squares.
pub open spec fn kings_in(grid: Seq<Cell>, caps: Seq<u16>, k: int) -> int
    decreases k,
{
    if k <= 0 {
        0
    } else {
        kings_in(grid, caps, k - 1) + if grid[caps[k - 1] as int] is King {
            1int
        } else {
            0int
        }
    }
}

/// Index of the first king among the first `k` captured squares, or -1.
pub open spec fn first_king(grid: Seq<Cell>, caps: Seq<u16>, k: int) -> int
    decreases k,
{
    if k <= 0 {
        -1
    } else if first_king(grid, caps, k - 1) >= 0 {
        first_king(grid, caps, k - 1)
    } else if grid[caps[k - 1] as int] is King {
        k - 1
    } else {
        -1
    }
}

/// Lexicographic `a <= b` on keys.
pub open spec fn key_le(a: (int, int, int, int), b: (int, int, int, int)) -> bool {
    a.0 < b.0 || (a.0 == b.0 && (a.1 < b.1 || (a.1 == b.1 && (a.2 < b.2 || (a.2 == b.2 && a.3 <= b.3)))))
}


fn dup_move(m: &DMove) -> (r: DMove)
    ensures
        r.path@ == m.path@,
        r.captured@ == m.captured@,
{
    DMove { path: copy_u16s(&m.path), captured: copy_u16s(&m.captured) }
}

fn copy_cells(v: &Vec<Cell>) -> (res: Vec<Cell>)
    ensures
        res@ == v@,
{
    let mut res: Vec<Cell> = Vec::new();
    let mut i: usize = 0;
    while i < v.len()
        invariant
            i <= v@.len(),
            res@ == v@.take(i as int),
        decreases v@.len() - i,
    {
        res.push(v[i]);
        i += 1;
        assert(res@ =~= v@.take(i as int));
    }
    assert(v@.take(v@.len() as int) =~= v@);
    res
}

/// Some move in `mv[lo..]` has the path `p`.
pub open spec fn has_path(mv: Seq<DMove>, lo: int, p: Seq<u16>) -> bool {
    exists|i: int| lo <= i < mv.len() && #[trigger] mv[i].path@ == p
}

/// Some move in `mv[lo..]` is the quiet step `[sq, t]`.
pub open spec fn has_step(mv: Seq<DMove>, lo: int, sq: int, t: int) -> bool {
    has_path(mv, lo, seq![sq as u16, t as u16])
}

/// Two moves with the same path and the same captured squares.
pub open spec fn same_move(a: DMove, b: DMove) -> bool {
    a.path@ == b.path@ && a.captured@ == b.captured@
}

impl Draughts {
    proof fn lemma_capture_move_piece(&self, m: DMove, owner: u8)
        requires
            self.wf(),
            self.capture_move(m, owner),
        ensures
            self.piece_can_capture(m.path@[0] as int, owner),
    {
        let p = m.path@;
        let c = m.captured@;
        let sq = p[0] as int;
        let bd = self.lifted(sq);
        let k0 = self.grid@[sq] is King;
        assert(self.step_ok(bd, p, c, k0, owner, 0));
        let (a, b, f, g) = choose|a: int, b: int, f: int, g: int|
            {
                &&& #[trigger] self.jump(bd, p[0] as int, self.king_at(p, k0, owner, 0), owner, c.take(0), a, b, f, g)
                &&& c[0] as int == ray_sq(self.n as int, p[0] as int, a, b, f)
                &&& p[1] as int == ray_sq(self.n as int, p[0] as int, a, b, g)
            };
        assert(c.take(0) =~= Seq::<u16>::empty());
        assert(self.king_at(p, k0, owner, 0) == k0);
        assert(self.jump(bd, sq, k0, owner, Seq::empty(), a, b, f, g));
        assert(self.can_jump_dir(bd, sq, k0, owner, Seq::empty(), a, b));
    }

    /// Append every quiet step of the piece of `owner` on `sq`.
    fn quiet_from(&self, sq: usize, owner: u8, mv: &mut Vec<DMove>)
        requires
            self.wf(),
            sq < self.grid@.len(),
            owned(self.grid@[sq as int], owner),
            owner <= 1,
        ensures
            final(mv)@.len() >= old(mv)@.len(),
            final(mv)@.take(old(mv)@.len() as int) == old(mv)@,
            forall|i: int|
                old(mv)@.len() <= i < final(mv)@.len() ==> self.quiet_move(#[trigger] final(mv)@[i], owner)
                    && final(mv)@[i].path@[0] == sq,
            forall|t: int|
                #[trigger] self.quiet_step(sq as int, t, owner) ==> has_step(final(mv)@, old(mv)@.len() as int, sq as int, t),
            in_order(self.n as int, final(mv)@, old(mv)@.len() as int),
    {
        let ghost n = self.n as int;
        let ghost mv0 = mv@;
        let is_king = is_king_cell(self.grid[sq]);
        let dirs: [(i64, i64); 4] = [(-1, -1), (-1, 1), (1, -1), (1, 1)];
        let mut di: usize = 0;
        while di < 4
            invariant
                self.wf(),
                n == self.n,
                sq < self.grid@.len(),
                owned(self.grid@[sq as int], owner),
                owner <= 1,
                is_king == self.grid@[sq as int] is King,
                dirs@ == seq![(-1i64, -1i64), (-1i64, 1i64), (1i64, -1i64), (1i64, 1i64)],
                di <= 4,
                mv@.len() >= mv0.len(),
                mv@.take(mv0.len() as int) == mv0,
                forall|i: int| mv0.len() <= i < mv@.len() ==> self.quiet_move(#[trigger] mv@[i], owner) && mv@[i].path@[0] == sq,
                in_order(n, mv@, mv0.len() as int),
                forall|i: int| mv0.len() <= i < mv@.len() ==> land_key(n, sq as int, (#[trigger] mv@[i]).path@[1] as int) < di * (n + 1),
                forall|dr: int, dc: int, d: int|
                    #![trigger ray_sq(n, sq as int, dr, dc, d)]
                    {
                        &&& is_diag(dr, dc)
                        &&& dir_index(dr, dc) < di
                        &&& 1 <= d
                        &&& forall|k: int| 1 <= k <= d ==> #[trigger] empty_on(self.grid@, n, sq as int, dr, dc, k)
                        &&& if self.grid@[sq as int] == Cell::Man(owner) {
                            dr == forward(owner) && d == 1
                        } else {
                            self.flying || d == 1
                        }
                    } ==> has_step(mv@, mv0.len() as int, sq as int, ray_sq(n, sq as int, dr, dc, d)),
            decreases 4 - di,
        {
            let (dr, dc) = dirs[di];
            assert(dr == dir_r(di as int) && dc == dir_c(di as int));
            let f = self.first_block(&self.grid, sq, dr, dc, 1);
            let upper: i64 = if !is_king {
                if (owner == 0 && dr == -1) || (owner != 0 && dr == 1) {
                    if f > 1 {
                        2
                    } else {
                        1
                    }
                } else {
                    1
                }
            } else if self.flying {
                f
            } else if f > 1 {
                2
            } else {
                1
            };
            let ghost mvb = mv@;
            let mut d: i64 = 1;
            while d < upper
                invariant
                    self.wf(),
                    n == self.n,
                    sq < self.grid@.len(),
                    owned(self.grid@[sq as int], owner),
                    owner <= 1,
                    is_king == self.grid@[sq as int] is King,
                    is_diag(dr as int, dc as int),
                    1 <= d <= upper,
                    upper <= f,
                    f <= n + 1,
                    !is_king ==> upper <= 2 && (upper == 2 ==> dr == forward(owner)),
                    is_king && !self.flying ==> upper <= 2,
                    forall|k: int| 1 <= k < f ==> #[trigger] empty_on(self.grid@, n, sq as int, dr as int, dc as int, k),
                    mv@.len() >= mvb.len(),
                    mv@.take(mvb.len() as int) == mvb,
                    forall|i: int| mv0.len() <= i < mv@.len() ==> self.quiet_move(#[trigger] mv@[i], owner) && mv@[i].path@[0] == sq,
                    di < 4,
                    dir_index(dr as int, dc as int) == di,
                    mvb.len() >= mv0.len(),
                    in_order(n, mv@, mv0.len() as int),
                    forall|i: int| mv0.len() <= i < mv@.len() ==> land_key(n, sq as int, (#[trigger] mv@[i]).path@[1] as int) < di * (n + 1) + d,
                    forall|k: int| 1 <= k < d ==> #[trigger] has_step(mv@, mvb.len() as int, sq as int, ray_sq(n, sq as int, dr as int, dc as int, k)),
                decreases upper - d,
            {
                assert(empty_on(self.grid@, n, sq as int, dr as int, dc as int, d as int));
                let t = match self.ray_at(sq, dr, dc, d) {
                    Some(x) => x,
                    None => {
                        assert(false);
                        0
                    },
                };
                let mut path: Vec<u16> = Vec::new();
                path.push(sq as u16);
                path.push(t as u16);
                let m = DMove { path, captured: Vec::new() };
                proof {
                    assert(forall|k: int| 1 <= k <= d ==> #[trigger] empty_on(self.grid@, n, sq as int, dr as int, dc as int, k));
                    assert(self.quiet_step(sq as int, t as int, owner));
                }
                let ghost mvc = mv@;
                mv.push(m);
                proof {
                    lemma_land_key(n, sq as int, dr as int, dc as int, d as int);
                    assert forall|i: int| mv0.len() <= i < mvc.len() implies (#[trigger] mvc[i]).path@.len() > 1
                        && mvc[i].path@.take(1) == seq![sq as u16] && land_key(n, sq as int, mvc[i].path@[1] as int) < di * (n + 1) + d by {
                        assert(mvc[i].path@.take(1) =~= seq![sq as u16]);
                    }
                    assert(mv@[mvc.len() as int].path@.take(1) =~= seq![sq as u16]);
                    assert(mv@.take(mvc.len() as int) =~= mvc);
                    lemma_in_order_join(n, mvc, mv@, mv0.len() as int, seq![sq as u16], di * (n + 1) + d);
                    assert(mv@.take(mvb.len() as int) =~= mvb) by {
                        assert(mvc.take(mvb.len() as int) == mvb);
                    }
                    assert forall|k: int| 1 <= k < d + 1 implies #[trigger] has_step(mv@, mvb.len() as int, sq as int, ray_sq(n, sq as int, dr as int, dc as int, k)) by {
                        if k < d {
                            assert(has_step(mvc, mvb.len() as int, sq as int, ray_sq(n, sq as int, dr as int, dc as int, k)));
                            let i = choose|i: int| mvb.len() <= i < mvc.len() && #[trigger] mvc[i].path@ == seq![sq as u16, ray_sq(n, sq as int, dr as int, dc as int, k) as u16];
                            assert(mv@[i] == mvc[i]);
                        } else {
                            assert(mv@[mvc.len() as int].path@ =~= seq![sq as u16, ray_sq(n, sq as int, dr as int, dc as int, k) as u16]);
                        }
                    }
                }
                d += 1;
            }
            proof {
                lemma_prefix_chain(mv0, mvb, mv@);
                lemma_key_band_all(n, di as int);
                assert forall|dr2: int, dc2: int, d2: int|
                    #![trigger ray_sq(n, sq as int, dr2, dc2, d2)]
                    {
                        &&& is_diag(dr2, dc2)
                        &&& dir_index(dr2, dc2) < di + 1
                        &&& 1 <= d2
                        &&& forall|k: int| 1 <= k <= d2 ==> #[trigger] empty_on(self.grid@, n, sq as int, dr2, dc2, k)
                        &&& if self.grid@[sq as int] == Cell::Man(owner) {
                            dr2 == forward(owner) && d2 == 1
                        } else {
                            self.flying || d2 == 1
                        }
                    } implies has_step(mv@, mv0.len() as int, sq as int, ray_sq(n, sq as int, dr2, dc2, d2)) by {
                    if dir_index(dr2, dc2) == di {
                        assert(dr2 == dr && dc2 == dc);
                        if d2 >= f {
                            assert(empty_on(self.grid@, n, sq as int, dr as int, dc as int, f as int));
                        }
                        assert(d2 < upper);
                        assert(has_step(mv@, mvb.len() as int, sq as int, ray_sq(n, sq as int, dr as int, dc as int, d2)));
                        let i = choose|i: int| mvb.len() <= i < mv@.len() && #[trigger] mv@[i].path@ == seq![sq as u16, ray_sq(n, sq as int, dr as int, dc as int, d2) as u16];
                    } else {
                        let t = ray_sq(n, sq as int, dr2, dc2, d2);
                        assert(has_step(mvb, mv0.len() as int, sq as int, t));
                        let i = choose|i: int| mv0.len() <= i < mvb.len() && #[trigger] mvb[i].path@ == seq![sq as u16, t as u16];
                        assert(mv@[i] == mvb[i]);
                    }
                }
            }
            di += 1;
        }
        proof {
            assert forall|t: int| #[trigger] self.quiet_step(sq as int, t, owner) implies has_step(mv@, mv0.len() as int, sq as int, t) by {
                let (dr2, dc2, d2) = choose|dr2: int, dc2: int, d2: int|
                    {
                        &&& is_diag(dr2, dc2)
                        &&& t == ray_sq(n, sq as int, dr2, dc2, d2)
                        &&& 1 <= d2
                        &&& forall|k: int| 1 <= k <= d2 ==> #[trigger] empty_on(self.grid@, n, sq as int, dr2, dc2, k)
                        &&& if self.grid@[sq as int] == Cell::Man(owner) {
                            dr2 == forward(owner) && d2 == 1
                        } else {
                            self.grid@[sq as int] == Cell::King(owner) && (self.flying || d2 == 1)
                        }
                    };
                assert(ray_sq(n, sq as int, dr2, dc2, d2) == t);
                assert(dir_index(dr2, dc2) < 4);
            }
        }
    }
}


/// `m` has the same path and captures as some element of `v`.
pub open spec fn among(m: DMove, v: Seq<DMove>) -> bool {
    exists|j: int| 0 <= j < v.len() && same_move(m, #[trigger] v[j])
}

/// Keep the chains that capture the most pieces.
fn filter_max(caps: &Vec<DMove>, Ghost(n): Ghost<int>) -> (res: Vec<DMove>)
    ensures
        in_order(n, caps@, 0) ==> in_order(n, res@, 0),
        forall|i: int| 0 <= i < res@.len() ==> among(#[trigger] res@[i], caps@),
        forall|i: int, j: int|
            0 <= i < res@.len() && 0 <= j < caps@.len() ==> #[trigger] caps@[j].captured@.len() <= #[trigger] res@[i].captured@.len(),
        forall|j: int|
            0 <= j < caps@.len() && (forall|k: int| 0 <= k < caps@.len() ==> #[trigger] caps@[k].captured@.len() <= caps@[j].captured@.len())
                ==> among(#[trigger] caps@[j], res@),
        caps@.len() > 0 ==> res@.len() > 0,
{
    let mut best: usize = 0;
    let mut bi: usize = 0;
    let mut j: usize = 0;
    while j < caps.len()
        invariant
            j <= caps@.len(),
            j > 0 ==> bi < j && best == caps@[bi as int].captured@.len(),
            forall|k: int| 0 <= k < j ==> #[trigger] caps@[k].captured@.len() <= best,
        decreases caps@.len() - j,
    {
        if j == 0 || caps[j].captured.len() > best {
            best = caps[j].captured.len();
            bi = j;
        }
        j += 1;
    }
    let mut res: Vec<DMove> = Vec::new();
    let ghost mut idx: Seq<int> = Seq::empty();
    let mut j: usize = 0;
    while j < caps.len()
        invariant
            j <= caps@.len(),
            idx.len() == res@.len(),
            forall|k: int| 0 <= k < idx.len() ==> 0 <= #[trigger] idx[k] < j && same_move(res@[k], caps@[idx[k]]),
            forall|k1: int, k2: int| 0 <= k1 < k2 < idx.len() ==> #[trigger] idx[k1] < #[trigger] idx[k2],
            caps@.len() > 0 ==> bi < caps@.len() && best == caps@[bi as int].captured@.len(),
            forall|k: int| 0 <= k < caps@.len() ==> #[trigger] caps@[k].captured@.len() <= best,
            forall|i: int| 0 <= i < res@.len() ==> among(#[trigger] res@[i], caps@),
            forall|i: int| 0 <= i < res@.len() ==> #[trigger] res@[i].captured@.len() == best,
            forall|k: int| 0 <= k < j && caps@[k].captured@.len() == best ==> among(#[trigger] caps@[k], res@),
            j > bi ==> res@.len() > 0,
        decreases caps@.len() - j,
    {
        if caps[j].captured.len() == best {
            let m = dup_move(&caps[j]);
            let ghost r0 = res@;
            res.push(m);
            proof {
                idx = idx.push(j as int);
                assert(same_move(res@[r0.len() as int], caps@[j as int]));
                assert forall|k: int| 0 <= k < idx.len() implies 0 <= #[trigger] idx[k] < j + 1 && same_move(res@[k], caps@[idx[k]]) by {
                    if k < r0.len() {
                        assert(res@[k] == r0[k]);
                    }
                }
                assert forall|k: int| 0 <= k < j + 1 && caps@[k].captured@.len() == best implies among(#[trigger] caps@[k], res@) by {
                    if k < j {
                        let i = choose|i: int| 0 <= i < r0.len() && same_move(caps@[k], #[trigger] r0[i]);
                        assert(res@[i] == r0[i]);
                    } else {
                        assert(same_move(caps@[k], res@[r0.len() as int]));
                    }
                }
                assert forall|i: int| 0 <= i < res@.len() implies among(#[trigger] res@[i], caps@) by {
                    if i < r0.len() {
                        assert(res@[i] == r0[i]);
                    }
                }
            }
        }
        j += 1;
    }
    proof {
        assert forall|j2: int|
            0 <= j2 < caps@.len() && (forall|k: int| 0 <= k < caps@.len() ==> #[trigger] caps@[k].captured@.len() <= caps@[j2].captured@.len())
                implies among(#[trigger] caps@[j2], res@) by {
            assert(caps@[bi as int].captured@.len() <= caps@[j2].captured@.len());
        }
        lemma_order_kept(n, caps@, res@, idx);
    }
    res
}

/// A selection of moves, taken in their order, keeps generation order.
proof fn lemma_order_kept(n: int, caps: Seq<DMove>, res: Seq<DMove>, idx: Seq<int>)
    requires
        idx.len() == res.len(),
        forall|k: int| 0 <= k < idx.len() ==> 0 <= #[trigger] idx[k] < caps.len() && same_move(res[k], caps[idx[k]]),
        forall|k1: int, k2: int| 0 <= k1 < k2 < idx.len() ==> #[trigger] idx[k1] < #[trigger] idx[k2],
    ensures
        in_order(n, caps, 0) ==> in_order(n, res, 0),
{
    if in_order(n, caps, 0) {
        assert forall|i: int, j: int| 0 <= i < j < res.len() implies precedes(n, #[trigger] res[i].path@, #[trigger] res[j].path@) by {
            assert(idx[i] < idx[j]);
            assert(precedes(n, caps[idx[i]].path@, caps[idx[j]].path@));
        }
    }
}

/// Lexicographic `a <= b` on priority keys.
fn key_le_exec(a: (u64, u64, i64, i64), b: (u64, u64, i64, i64)) -> (res: bool)
    ensures
        res == key_le((a.0 as int, a.1 as int, a.2 as int, a.3 as int), (b.0 as int, b.1 as int, b.2 as int, b.3 as int)),
{
    a.0 < b.0 || (a.0 == b.0 && (a.1 < b.1 || (a.1 == b.1 && (a.2 < b.2 || (a.2 == b.2 && a.3 <= b.3)))))
}

pub open spec fn key_int(k: (u64, u64, i64, i64)) -> (int, int, int, int) {
    (k.0 as int, k.1 as int, k.2 as int, k.3 as int)
}

/// The squares of a move lie on the board.
pub open spec fn move_on_board(m: DMove, len: int) -> bool {
    &&& m.path@.len() >= 1
    &&& forall|i: int| 0 <= i < m.path@.len() ==> (#[trigger] m.path@[i] as int) < len
    &&& forall|i: int| 0 <= i < m.captured@.len() ==> (#[trigger] m.captured@[i] as int) < len
    &&& m.captured@.len() <= len
}

impl Draughts {
    /// The capture-priority key of `m`.
    fn key_of(&self, m: &DMove) -> (k: (u64, u64, i64, i64))
        requires
            self.wf(),
            move_on_board(*m, self.grid@.len() as int),
        ensures
            key_int(k) == self.priority_key(*m),
    {
        let count = m.captured.len() as u64;
        let capturer_is_king: u64 = if is_king_cell(self.grid[m.path[0] as usize]) {
            1
        } else {
            0
        };
        let mut kings: i64 = 0;
        let mut first: i64 = -1;
        let mut i: usize = 0;
        while i < m.captured.len()
            invariant
                self.wf(),
                move_on_board(*m, self.grid@.len() as int),
                i <= m.captured@.len(),
                kings == kings_in(self.grid@, m.captured@, i as int),
                0 <= kings <= i,
                first == first_king(self.grid@, m.captured@, i as int),
                -1 <= first < i,
            decreases m.captured@.len() - i,
        {
            if is_king_cell(self.grid[m.captured[i] as usize]) {
                kings += 1;
                if first < 0 {
                    first = i as i64;
                }
            }
            i += 1;
        }
        if self.capture_priority == 1 {
            (count, 0, kings, 0)
        } else {
            let earliest = if first >= 0 {
                -first
            } else {
                i64::MIN
            };
            (count, capturer_is_king, kings, earliest)
        }
    }

    /// Keep the chains whose priority key is the largest.
    fn filter_key(&self, caps: &Vec<DMove>) -> (res: Vec<DMove>)
        requires
            self.wf(),
            forall|j: int| 0 <= j < caps@.len() ==> move_on_board(#[trigger] caps@[j], self.grid@.len() as int),
        ensures
            in_order(self.n as int, caps@, 0) ==> in_order(self.n as int, res@, 0),
            forall|j: int|
                0 <= j < caps@.len() && (forall|k: int| 0 <= k < caps@.len() ==> key_le(self.priority_key(#[trigger] caps@[k]), self.priority_key(caps@[j])))
                    ==> among(#[trigger] caps@[j], res@),
            forall|i: int| 0 <= i < res@.len() ==> among(#[trigger] res@[i], caps@),
            forall|i: int, j: int|
                0 <= i < res@.len() && 0 <= j < caps@.len() ==> key_le(self.priority_key(#[trigger] caps@[j]), self.priority_key(#[trigger] res@[i])),
            forall|i: int, j: int|
                0 <= i < res@.len() && 0 <= j < res@.len() ==> self.priority_key(#[trigger] res@[i]) == self.priority_key(#[trigger] res@[j]),
            caps@.len() > 0 ==> res@.len() > 0,
    {
        let mut best: (u64, u64, i64, i64) = (0, 0, 0, 0);
        let mut j: usize = 0;
        while j < caps.len()
            invariant
                self.wf(),
                forall|j: int| 0 <= j < caps@.len() ==> move_on_board(#[trigger] caps@[j], self.grid@.len() as int),
                j <= caps@.len(),
                j > 0 ==> exists|b: int| 0 <= b < j && key_int(best) == self.priority_key(#[trigger] caps@[b]),
                forall|k: int| 0 <= k < j ==> key_le(self.priority_key(#[trigger] caps@[k]), key_int(best)),
            decreases caps@.len() - j,
        {
            let k = self.key_of(&caps[j]);
            if j == 0 || !key_le_exec(k, best) {
                best = k;
            }
            j += 1;
        }
        let mut res: Vec<DMove> = Vec::new();
        let ghost mut idx: Seq<int> = Seq::empty();
        let mut j: usize = 0;
        while j < caps.len()
            invariant
                self.wf(),
                forall|j: int| 0 <= j < caps@.len() ==> move_on_board(#[trigger] caps@[j], self.grid@.len() as int),
                j <= caps@.len(),
                idx.len() == res@.len(),
                forall|k: int| 0 <= k < idx.len() ==> 0 <= #[trigger] idx[k] < j && same_move(res@[k], caps@[idx[k]]),
                forall|k1: int, k2: int| 0 <= k1 < k2 < idx.len() ==> #[trigger] idx[k1] < #[trigger] idx[k2],
                caps@.len() > 0 ==> exists|b: int| 0 <= b < caps@.len() && key_int(best) == self.priority_key(#[trigger] caps@[b]),
                forall|k: int| 0 <= k < caps@.len() ==> key_le(self.priority_key(#[trigger] caps@[k]), key_int(best)),
                forall|i: int| 0 <= i < res@.len() ==> among(#[trigger] res@[i], caps@),
                forall|i: int| 0 <= i < res@.len() ==> self.priority_key(#[trigger] res@[i]) == key_int(best),
                forall|k: int| 0 <= k < j && self.priority_key(caps@[k]) == key_int(best) ==> among(#[trigger] caps@[k], res@),
            decreases caps@.len() - j,
        {
            let k = self.key_of(&caps[j]);
            if k.0 == best.0 && k.1 == best.1 && k.2 == best.2 && k.3 == best.3 {
                let m = dup_move(&caps[j]);
                let ghost r0 = res@;
                res.push(m);
                proof {
                    idx = idx.push(j as int);
                    assert(same_move(res@[r0.len() as int], caps@[j as int]));
                    assert forall|k: int| 0 <= k < idx.len() implies 0 <= #[trigger] idx[k] < j + 1 && same_move(res@[k], caps@[idx[k]]) by {
                        if k < r0.len() {
                            assert(res@[k] == r0[k]);
                        }
                    }
                    assert forall|k2: int| 0 <= k2 < j + 1 && self.priority_key(caps@[k2]) == key_int(best) implies among(#[trigger] caps@[k2], res@) by {
                        if k2 < j {
                            let i = choose|i: int| 0 <= i < r0.len() && same_move(caps@[k2], #[trigger] r0[i]);
                            assert(res@[i] == r0[i]);
                        } else {
                            assert(same_move(caps@[k2], res@[r0.len() as int]));
                        }
                    }
                    assert forall|i: int| 0 <= i < res@.len() implies among(#[trigger] res@[i], caps@) && self.priority_key(res@[i]) == key_int(best) by {
                        if i < r0.len() {
                            assert(res@[i] == r0[i]);
                        }
                    }
                }
            }
            j += 1;
        }
        proof {
            if caps@.len() > 0 {
                let b = choose|b: int| 0 <= b < caps@.len() && key_int(best) == self.priority_key(#[trigger] caps@[b]);
                assert(among(caps@[b], res@));
                let i = choose|i: int| 0 <= i < res@.len() && same_move(caps@[b], #[trigger] res@[i]);
                assert forall|j2: int|
                    0 <= j2 < caps@.len() && (forall|k: int|
                        0 <= k < caps@.len() ==> key_le(self.priority_key(#[trigger] caps@[k]), self.priority_key(caps@[j2]))) implies among(
                    #[trigger] caps@[j2],
                    res@,
                ) by {
                    assert(key_le(self.priority_key(caps@[b]), self.priority_key(caps@[j2])));
                    assert(key_le(self.priority_key(caps@[j2]), key_int(best)));
                    assert(self.priority_key(caps@[j2]) == key_int(best));
                }
            }
            lemma_order_kept(self.n as int, caps@, res@, idx);
        }
        res
    }
}


impl Draughts {
    /// The squares of a legal chain are on the board and its captures are distinct.
    proof fn lemma_chain_on_board(&self, bd: Seq<Cell>, p: Seq<u16>, c: Seq<u16>, king0: bool, owner: u8)
        requires
            self.wf(),
            bd.len() == self.n * self.n,
            self.valid_chain(bd, p, c, king0, owner),
            (p[0] as int) < self.n * self.n,
        ensures
            forall|i: int| 0 <= i < p.len() ==> (#[trigger] p[i] as int) < self.n * self.n,
            forall|i: int| 0 <= i < c.len() ==> (#[trigger] c[i] as int) < self.n * self.n,
            c.no_duplicates(),
            c.len() <= self.n * self.n,
    {
        let n = self.n as int;
        assert forall|i: int| 0 <= i < c.len() implies (#[trigger] c[i] as int) < n * n && (p[i + 1] as int) < n * n
            && !c.take(i).contains(c[i]) by {
            assert(self.step_ok(bd, p, c, king0, owner, i));
            let (a, b, f, g) = choose|a: int, b: int, f: int, g: int|
                {
                    &&& #[trigger] self.jump(bd, p[i] as int, self.king_at(p, king0, owner, i), owner, c.take(i), a, b, f, g)
                    &&& c[i] as int == ray_sq(n, p[i] as int, a, b, f)
                    &&& p[i + 1] as int == ray_sq(n, p[i] as int, a, b, g)
                };
            lemma_ray_sq_bound(n, p[i] as int, a, b, f);
            if self.king_at(p, king0, owner, i) && self.flying {
                assert(empty_on(bd, n, p[i] as int, a, b, g));
            } else {
                assert(empty_on(bd, n, p[i] as int, a, b, 2));
            }
            lemma_ray_sq_bound(n, p[i] as int, a, b, g);
            assert((ray_sq(n, p[i] as int, a, b, f) as u16) == c[i]);
        }
        assert forall|i: int| 0 <= i < p.len() implies (#[trigger] p[i] as int) < n * n by {
            if i > 0 {
                assert((c[i - 1] as int) < n * n);
                assert((p[(i - 1) + 1] as int) < n * n);
            }
        }
        assert forall|a: int, b: int| 0 <= a < c.len() && 0 <= b < c.len() && a != b implies c[a] != c[b] by {
            if a < b {
                assert(!c.take(b).contains(c[b]));
                assert(c.take(b)[a] == c[a]);
            } else {
                assert(!c.take(a).contains(c[a]));
                assert(c.take(a)[b] == c[b]);
            }
        }
        lemma_distinct_bounded(c, n * n);
    }

    /// Every complete capture chain of `owner`, in generation order.
    fn captures_for(&self, owner: u8) -> (caps: Vec<DMove>)
        requires
            self.wf(),
            owner <= 1,
        ensures
            forall|i: int| 0 <= i < caps@.len() ==> self.capture_move(#[trigger] caps@[i], owner),
            self.any_capture(owner) <==> caps@.len() > 0,
            forall|j: int| 0 <= j < caps@.len() ==> move_on_board(#[trigger] caps@[j], self.grid@.len() as int),
            in_order(self.n as int, caps@, 0),
            forall|m: DMove| #[trigger] self.capture_move(m, owner) ==> among(m, caps@),
    {
        let ghost n = self.n as int;
        let mut caps: Vec<DMove> = Vec::new();
        let mut sq: usize = 0;
        while sq < self.grid.len()
            invariant
                self.wf(),
                n == self.n,
                owner <= 1,
                sq <= self.grid@.len(),
                forall|i: int| 0 <= i < caps@.len() ==> self.capture_move(#[trigger] caps@[i], owner),
                (exists|q: int| 0 <= q < sq && #[trigger] self.piece_can_capture(q, owner)) ==> caps@.len() > 0,
                in_order(n, caps@, 0),
                forall|i: int| 0 <= i < caps@.len() ==> ((#[trigger] caps@[i]).path@[0] as int) < sq,
                forall|m: DMove| #[trigger] self.capture_move(m, owner) && (m.path@[0] as int) < sq ==> among(m, caps@),
            decreases self.grid@.len() - sq,
        {
            let cell = self.grid[sq];
            let owned_here = match cell {
                Cell::Man(o) => o == owner,
                Cell::King(o) => o == owner,
                Cell::Empty => false,
            };
            if owned_here {
                let is_king = is_king_cell(cell);
                let mut bd = copy_cells(&self.grid);
                bd.set(sq, Cell::Empty);
                let mut path: Vec<u16> = Vec::new();
                path.push(sq as u16);
                let mut captured: Vec<u16> = Vec::new();
                let ghost c0 = caps@;
                proof {
                    assert(bd@ == self.lifted(sq as int));
                    assert(self.king_at(path@, is_king, owner, 0) == is_king);
                    assert(path@.last() == sq);
                }
                self.chain(&bd, sq, is_king, owner, &mut path, &mut captured, &mut caps, Ghost(is_king));
                proof {
                    assert forall|i: int| c0.len() <= i < caps@.len() implies ((#[trigger] caps@[i]).path@[0] as int) == sq by {
                        assert(self.emitted(caps@[i], bd@, seq![sq as u16], Seq::<u16>::empty(), is_king, owner));
                        assert(caps@[i].path@.take(1)[0] == caps@[i].path@[0]);
                    }
                    assert forall|i: int| 0 <= i < c0.len() implies ((#[trigger] c0[i]).path@[0] as int) < sq by {}
                    lemma_in_order_start(n, c0, caps@, sq as int);
                    assert forall|m: DMove| #[trigger] self.capture_move(m, owner) && (m.path@[0] as int) < sq + 1 implies among(m, caps@) by {
                        if (m.path@[0] as int) < sq {
                            assert(among(m, c0));
                            let j = choose|j: int| 0 <= j < c0.len() && same_move(m, #[trigger] c0[j]);
                            assert(caps@.take(c0.len() as int)[j] == caps@[j]);
                        } else {
                            assert(m.path@.take(1) =~= seq![sq as u16]);
                            assert(m.captured@.take(0) =~= Seq::<u16>::empty());
                            assert(self.emitted(m, bd@, seq![sq as u16], Seq::<u16>::empty(), is_king, owner));
                            let j = choose|j: int| c0.len() <= j < caps@.len() && same_move(m, #[trigger] caps@[j]);
                        }
                    }
                    assert forall|i: int| 0 <= i < caps@.len() implies ((#[trigger] caps@[i]).path@[0] as int) < sq + 1 by {
                        if i < c0.len() {
                            assert(caps@.take(c0.len() as int)[i] == caps@[i]);
                        }
                    }
                    assert forall|i: int| 0 <= i < caps@.len() implies self.capture_move(#[trigger] caps@[i], owner) by {
                        if i < c0.len() {
                            assert(caps@.take(c0.len() as int)[i] == caps@[i]);
                        } else {
                            let m = caps@[i];
                            assert(self.emitted(m, bd@, seq![sq as u16], Seq::<u16>::empty(), is_king, owner));
                            assert(m.path@.take(1)[0] == m.path@[0]);
                            assert(m.path@[0] == sq as u16);
                        }
                    }
                    assert(captured@ =~= Seq::<u16>::empty());
                }
            } else {
                proof {
                    assert(!self.piece_can_capture(sq as int, owner));
                    assert forall|m: DMove| #[trigger] self.capture_move(m, owner) && (m.path@[0] as int) < sq + 1 implies among(m, caps@) by {
                        if m.path@[0] as int == sq {
                            assert(owned(self.grid@[sq as int], owner));
                        }
                    }
                }
            }
            sq += 1;
        }
        proof {
            if caps@.len() > 0 {
                self.lemma_capture_move_piece(caps@[0], owner);
            }
            assert(self.any_capture(owner) <==> caps@.len() > 0);
            assert forall|j: int| 0 <= j < caps@.len() implies move_on_board(#[trigger] caps@[j], self.grid@.len() as int) by {
                let m = caps@[j];
                self.lemma_chain_on_board(self.lifted(m.path@[0] as int), m.path@, m.captured@, self.grid@[m.path@[0] as int] is King, owner);
            }
        }
        caps
    }

    /// The captures among `all` that the rules let `owner` choose.
    #[verifier::rlimit(100)]
    fn select_captures(&self, owner: u8, all: Vec<DMove>) -> (res: Vec<DMove>)
        requires
            self.wf(),
            owner <= 1,
            all@.len() > 0,
            forall|i: int| 0 <= i < all@.len() ==> self.capture_move(#[trigger] all@[i], owner),
            forall|j: int| 0 <= j < all@.len() ==> move_on_board(#[trigger] all@[j], self.grid@.len() as int),
            in_order(self.n as int, all@, 0),
            forall|m: DMove| #[trigger] self.capture_move(m, owner) ==> among(m, all@),
        ensures
            res@.len() > 0,
            forall|i: int| 0 <= i < res@.len() ==> self.best_capture(#[trigger] res@[i], owner),
            forall|m: DMove| #[trigger] self.best_capture(m, owner) ==> among(m, res@),
            in_order(self.n as int, res@, 0),
    {
        let ghost call = all@;
        let mut caps = all;
        if self.max_capture {
            caps = filter_max(&caps, Ghost(self.n as int));
        }
        let ghost c1 = caps@;
        proof {
            assert forall|i: int| 0 <= i < c1.len() implies self.capture_move(#[trigger] c1[i], owner)
                && (self.max_capture ==> forall|m2: DMove| #[trigger] self.capture_move(m2, owner) ==> m2.captured@.len() <= c1[i].captured@.len()) by {
                if self.max_capture {
                    assert(among(c1[i], call));
                    assert forall|m2: DMove| #[trigger] self.capture_move(m2, owner) implies m2.captured@.len() <= c1[i].captured@.len() by {
                        assert(among(m2, call));
                        let j = choose|j: int| 0 <= j < call.len() && same_move(m2, #[trigger] call[j]);
                    }
                }
            }
            assert forall|m: DMove| #[trigger] self.best_capture(m, owner) implies among(m, c1) by {
                assert(among(m, call));
                let j = choose|j: int| 0 <= j < call.len() && same_move(m, #[trigger] call[j]);
                if self.max_capture {
                    assert forall|k: int| 0 <= k < call.len() implies #[trigger] call[k].captured@.len() <= call[j].captured@.len() by {
                        assert(self.capture_move(call[k], owner));
                    }
                    assert(among(call[j], c1));
                    let i = choose|i: int| 0 <= i < c1.len() && same_move(call[j], #[trigger] c1[i]);
                    assert(same_move(m, c1[i]));
                }
            }
        }
        if self.capture_priority > 0 {
            proof {
                assert forall|j: int| 0 <= j < caps@.len() implies move_on_board(#[trigger] caps@[j], self.grid@.len() as int) by {
                    let m = caps@[j];
                    self.lemma_chain_on_board(self.lifted(m.path@[0] as int), m.path@, m.captured@, self.grid@[m.path@[0] as int] is King, owner);
                }
            }
            caps = self.filter_key(&caps);
            proof {
                assert forall|i: int| 0 <= i < caps@.len() implies self.best_capture(#[trigger] caps@[i], owner) by {
                    assert(among(caps@[i], c1));
                    let a = choose|a: int| 0 <= a < c1.len() && same_move(caps@[i], #[trigger] c1[a]);
                    assert(self.capture_move(c1[a], owner));
                    assert forall|m2: DMove| #[trigger] self.capture_move(m2, owner) implies key_le(self.priority_key(m2), self.priority_key(caps@[i])) by {
                        assert(among(m2, call));
                        let j = choose|j: int| 0 <= j < call.len() && same_move(m2, #[trigger] call[j]);
                        if self.max_capture {
                            assert(m2.captured@.len() <= c1[a].captured@.len());
                            if m2.captured@.len() == c1[a].captured@.len() {
                                assert forall|k: int| 0 <= k < call.len() implies #[trigger] call[k].captured@.len() <= call[j].captured@.len() by {
                                    assert(self.capture_move(call[k], owner));
                                }
                                assert(among(call[j], c1));
                                let b = choose|b: int| 0 <= b < c1.len() && same_move(call[j], #[trigger] c1[b]);
                                assert(key_le(self.priority_key(c1[b]), self.priority_key(caps@[i])));
                            }
                        } else {
                            assert(key_le(self.priority_key(c1[j]), self.priority_key(caps@[i])));
                        }
                    }
                }
                assert forall|m: DMove| #[trigger] self.best_capture(m, owner) implies among(m, caps@) by {
                    assert(among(m, c1));
                    let j = choose|j: int| 0 <= j < c1.len() && same_move(m, #[trigger] c1[j]);
                    assert forall|k: int| 0 <= k < c1.len() implies key_le(self.priority_key(#[trigger] c1[k]), self.priority_key(c1[j])) by {
                        assert(self.capture_move(c1[k], owner));
                    }
                    assert(among(c1[j], caps@));
                    let i = choose|i: int| 0 <= i < caps@.len() && same_move(c1[j], #[trigger] caps@[i]);
                    assert(same_move(m, caps@[i]));
                }
            }
        } else {
            proof {
                assert forall|i: int| 0 <= i < caps@.len() implies self.best_capture(#[trigger] caps@[i], owner) by {
                    assert(self.capture_move(c1[i], owner));
                }
            }
        }
        caps
    }

    /// Every quiet move of `owner`, in generation order.
    fn quiet_for(&self, owner: u8) -> (mv: Vec<DMove>)
        requires
            self.wf(),
            owner <= 1,
        ensures
            forall|i: int| 0 <= i < mv@.len() ==> self.quiet_move(#[trigger] mv@[i], owner),
            forall|sq: int, t: int| #[trigger] self.quiet_step(sq, t, owner) ==> has_step(mv@, 0, sq, t),
            mv@.len() == 0 <==> !exists|sq: int, t: int| #[trigger] self.quiet_step(sq, t, owner),
            in_order(self.n as int, mv@, 0),
    {
        let ghost n = self.n as int;
        let mut mv: Vec<DMove> = Vec::new();
        let mut sq: usize = 0;
        while sq < self.grid.len()
            invariant
                self.wf(),
                n == self.n,
                owner <= 1,
                sq <= self.grid@.len(),
                forall|i: int| 0 <= i < mv@.len() ==> self.quiet_move(#[trigger] mv@[i], owner),
                forall|q: int, t: int| 0 <= q < sq && #[trigger] self.quiet_step(q, t, owner) ==> has_step(mv@, 0, q, t),
                in_order(n, mv@, 0),
                forall|i: int| 0 <= i < mv@.len() ==> ((#[trigger] mv@[i]).path@[0] as int) < sq,
            decreases self.grid@.len() - sq,
        {
            let cell = self.grid[sq];
            let owned_here = match cell {
                Cell::Man(o) => o == owner,
                Cell::King(o) => o == owner,
                Cell::Empty => false,
            };
            let ghost m0 = mv@;
            if owned_here {
                self.quiet_from(sq, owner, &mut mv);
                proof {
                    assert forall|i: int| 0 <= i < m0.len() implies ((#[trigger] m0[i]).path@[0] as int) < sq by {}
                    lemma_in_order_start(n, m0, mv@, sq as int);
                    assert forall|i: int| 0 <= i < mv@.len() implies ((#[trigger] mv@[i]).path@[0] as int) < sq + 1 by {
                        if i < m0.len() {
                            assert(mv@.take(m0.len() as int)[i] == mv@[i]);
                        }
                    }
                    assert forall|i: int| 0 <= i < mv@.len() implies self.quiet_move(#[trigger] mv@[i], owner) by {
                        if i < m0.len() {
                            assert(mv@.take(m0.len() as int)[i] == mv@[i]);
                        }
                    }
                    assert forall|q: int, t: int| 0 <= q < sq + 1 && #[trigger] self.quiet_step(q, t, owner) implies has_step(mv@, 0, q, t) by {
                        if q < sq {
                            assert(has_step(m0, 0, q, t));
                            let i = choose|i: int| 0 <= i < m0.len() && #[trigger] m0[i].path@ == seq![q as u16, t as u16];
                            assert(mv@.take(m0.len() as int)[i] == mv@[i]);
                        } else {
                            let i = choose|i: int| m0.len() <= i < mv@.len() && #[trigger] mv@[i].path@ == seq![q as u16, t as u16];
                        }
                    }
                }
            } else {
                proof {
                    assert forall|t: int| !#[trigger] self.quiet_step(sq as int, t, owner) by {}
                }
            }
            sq += 1;
        }
        proof {
            if mv@.len() > 0 {
                assert(self.quiet_move(mv@[0], owner));
                assert(self.quiet_step(mv@[0].path@[0] as int, mv@[0].path@[1] as int, owner));
            }
            if exists|q: int, t: int| #[trigger] self.quiet_step(q, t, owner) {
                let (q, t) = choose|q: int, t: int| #[trigger] self.quiet_step(q, t, owner);
                assert(has_step(mv@, 0, q, t));
            }
        }
        mv
    }

    /// All legal moves for `owner` (independent of whose turn it is), each once, in
    /// generation order: by starting square, then by direction (up-left, up-right,
    /// down-left, down-right) and distance of the first step where two paths part.
    /// Captures, when they exist, are forced and are the only moves returned: every
    /// complete chain, cut by `max_capture` to the longest ones and by a
    /// capture-priority mode to those of highest key.
    pub fn gen_for(&self, owner: u8) -> (res: Vec<DMove>)
        requires
            self.wf(),
            owner <= 1,
        ensures
            self.any_capture(owner) ==> res@.len() > 0 && forall|i: int| 0 <= i < res@.len() ==> self.best_capture(#[trigger] res@[i], owner),
            self.any_capture(owner) ==> forall|m: DMove| #[trigger] self.best_capture(m, owner) ==> among(m, res@),
            !self.any_capture(owner) ==> forall|i: int| 0 <= i < res@.len() ==> self.quiet_move(#[trigger] res@[i], owner),
            !self.any_capture(owner) ==> forall|sq: int, t: int| #[trigger] self.quiet_step(sq, t, owner) ==> has_step(res@, 0, sq, t),
            res@.len() == 0 <==> !self.has_move(owner),
            in_order(self.n as int, res@, 0),
    {
        let caps = self.captures_for(owner);
        if caps.len() > 0 {
            return self.select_captures(owner, caps);
        }
        self.quiet_for(owner)
    }
}


/// Equal rule flags, side to move and counter.
pub open spec fn same_config(a: Draughts, b: Draughts) -> bool {
    &&& a.n == b.n
    &&& a.current == b.current
    &&& a.flying == b.flying
    &&& a.men_back == b.men_back
    &&& a.max_capture == b.max_capture
    &&& a.promote_mid == b.promote_mid
    &&& a.misere == b.misere
    &&& a.men_no_king == b.men_no_king
    &&& a.capture_priority == b.capture_priority
    &&& a.no_progress == b.no_progress
}

/// Starting cell of square `(r, c)`: seat 1 men fill the top `men_rows` rows and seat 0
/// men the bottom `men_rows` rows, on the dark squares (`r + c` odd).
pub open spec fn start_cell(n: int, men_rows: int, r: int, c: int) -> Cell {
    if (r + c) % 2 == 1 && r >= n - men_rows {
        Cell::Man(0)
    } else if (r + c) % 2 == 1 && r < men_rows {
        Cell::Man(1)
    } else {
        Cell::Empty
    }
}

/// Number of cells equal to `x` among the first `k` cells.
pub open spec fn count_cell(g: Seq<Cell>, x: Cell, k: int) -> int
    decreases k,
{
    if k <= 0 {
        0
    } else {
        count_cell(g, x, k - 1) + if g[k - 1] == x {
            1int
        } else {
            0int
        }
    }
}

impl Draughts {
    /// Material from seat 0's perspective (negated under misère).
    pub open spec fn material_spec(&self) -> int {
        let len = self.grid@.len() as int;
        let m = MAN_VAL * (count_cell(self.grid@, Cell::Man(0), len) - count_cell(self.grid@, Cell::Man(1), len)) + KING_VAL * (
        count_cell(self.grid@, Cell::King(0), len) - count_cell(self.grid@, Cell::King(1), len));
        if self.misere {
            -m
        } else {
            m
        }
    }

    /// Material plus the mobility weight times the difference of move counts.
    /// `ms` lists the legal moves of `owner` as `gen_for` gives them: with a capture
    /// available, exactly the captures the rules let it choose, otherwise its quiet
    /// moves, each once, in generation order.
    pub open spec fn move_list(&self, owner: u8, ms: Seq<DMove>) -> bool {
        &&& self.any_capture(owner) ==> (forall|i: int| 0 <= i < ms.len() ==> self.best_capture(#[trigger] ms[i], owner))
            && (forall|m: DMove| #[trigger] self.best_capture(m, owner) ==> among(m, ms))
        &&& !self.any_capture(owner) ==> (forall|i: int| 0 <= i < ms.len() ==> self.quiet_move(#[trigger] ms[i], owner))
            && (forall|sq: int, t: int| #[trigger] self.quiet_step(sq, t, owner) ==> has_step(ms, 0, sq, t))
        &&& in_order(self.n as int, ms, 0)
    }

    pub open spec fn eval_with(&self, l0: int, l1: int) -> int {
        self.material_spec() + MOBILITY * (l0 - l1)
    }

    /// Board after `m` is played by `owner`: captured pieces and the origin are cleared
    /// and the piece lands on the last square, crowned when it ends on its kings row or
    /// (with `promote_mid`) touched it anywhere along the path.
    pub open spec fn after_cell(&self, m: DMove, owner: u8, q: int) -> Cell {
        let from = m.path@[0] as int;
        let to = m.path@.last() as int;
        let n = self.n as int;
        let was_king = self.grid@[from] is King;
        let crossed = self.promote_mid && exists|j: int|
            1 <= j < m.path@.len() && #[trigger] (m.path@[j] as int / n) == promo_row_spec(n, owner);
        let king = was_king || to / n == promo_row_spec(n, owner) || crossed;
        if q == to {
            if king {
                Cell::King(owner)
            } else {
                Cell::Man(owner)
            }
        } else if q == from || m.captured@.contains(q as u16) {
            Cell::Empty
        } else {
            self.grid@[q]
        }
    }

    #[allow(clippy::too_many_arguments)]
    pub fn new(
        n: usize,
        men_rows: usize,
        flying: bool,
        men_back: bool,
        max_capture: bool,
        promote_mid: bool,
        misere: bool,
        men_no_king: bool,
        capture_priority: u8,
    ) -> (g: Self)
        requires
            2 <= n <= 255,
            men_rows <= n,
        ensures
            g.wf(),
            g.n == n,
            g.current == 0,
            g.no_progress == 0,
            g.flying == flying,
            g.men_back == men_back,
            g.max_capture == (max_capture || capture_priority > 0),
            g.promote_mid == promote_mid,
            g.misere == misere,
            g.men_no_king == men_no_king,
            g.capture_priority == if capture_priority > 2 { 2 } else { capture_priority },
            forall|r: int, c: int| 0 <= r < n && 0 <= c < n ==> #[trigger] g.grid@[r * n + c] == start_cell(n as int, men_rows as int, r, c),
    {
        let max_capture = max_capture || capture_priority > 0;
        let capture_priority = if capture_priority > 2 { 2 } else { capture_priority };
        let mut grid: Vec<Cell> = Vec::new();
        let mut r: usize = 0;
        while r < n
            invariant
                2 <= n <= 255,
                men_rows <= n,
                r <= n,
                grid@.len() == r * n,
                forall|r2: int, c2: int| 0 <= r2 < r && 0 <= c2 < n ==> #[trigger] grid@[r2 * n + c2] == start_cell(n as int, men_rows as int, r2, c2),
            decreases n - r,
        {
            let mut c: usize = 0;
            let ghost g0 = grid@;
            while c < n
                invariant
                    2 <= n <= 255,
                    men_rows <= n,
                    r < n,
                    c <= n,
                    g0.len() == r * n,
                    grid@.len() == r * n + c,
                    grid@.take(g0.len() as int) == g0,
                    forall|c2: int| 0 <= c2 < c ==> #[trigger] grid@[r * n + c2] == start_cell(n as int, men_rows as int, r as int, c2),
                decreases n - c,
            {
                let cell = if (r + c) % 2 == 1 && r >= n - men_rows {
                    Cell::Man(0)
                } else if (r + c) % 2 == 1 && r < men_rows {
                    Cell::Man(1)
                } else {
                    Cell::Empty
                };
                let ghost gb = grid@;
                grid.push(cell);
                proof {
                    assert(grid@.take(g0.len() as int) =~= gb.take(g0.len() as int));
                }
                c += 1;
            }
            proof {
                assert forall|r2: int, c2: int| 0 <= r2 < r + 1 && 0 <= c2 < n implies #[trigger] grid@[r2 * n + c2] == start_cell(n as int, men_rows as int, r2, c2) by {
                    if r2 < r {
                        assert(r2 * n + c2 < r * n) by (nonlinear_arith)
                            requires
                                r2 < r,
                                0 <= c2 < n,
                        ;
                        assert(grid@.take(g0.len() as int)[r2 * n + c2] == grid@[r2 * n + c2]);
                    } else {
                        assert(r2 == r);
                    }
                }
                assert((r + 1) * n == r * n + n) by (nonlinear_arith);
            }
            r += 1;
        }
        proof {
            assert(n * n <= 65025) by (nonlinear_arith)
                requires
                    n <= 255,
            ;
        }
        Draughts {
            n,
            grid,
            current: 0,
            flying,
            men_back,
            max_capture,
            promote_mid,
            misere,
            men_no_king,
            capture_priority,
            no_progress: 0,
        }
    }

    pub fn gen(&self) -> (res: Vec<DMove>)
        requires
            self.wf(),
        ensures
            res@.len() == 0 <==> !self.has_move(self.current),
            forall|i: int| 0 <= i < res@.len() ==> self.legal(#[trigger] res@[i]),
            forall|m: DMove| #[trigger] self.legal(m) ==> among(m, res@),
            in_order(self.n as int, res@, 0),
    {
        let res = self.gen_for(self.current);
        proof {
            assert forall|m: DMove| #[trigger] self.legal(m) implies among(m, res@) by {
                if !self.any_capture(self.current) {
                    assert(self.quiet_step(m.path@[0] as int, m.path@[1] as int, self.current));
                    assert(has_step(res@, 0, m.path@[0] as int, m.path@[1] as int));
                    let j = choose|j: int| 0 <= j < res@.len() && #[trigger] res@[j].path@ == seq![m.path@[0] as u16, m.path@[1] as u16];
                    assert(self.quiet_move(res@[j], self.current));
                    assert(m.path@ =~= res@[j].path@);
                    assert(m.captured@ =~= res@[j].captured@);
                    assert(same_move(m, res@[j]));
                }
            }
        }
        res
    }

    /// Play `m` for the side to move.
    pub fn apply(&mut self, m: &DMove)
        requires
            old(self).wf(),
            move_on_board(*m, old(self).grid@.len() as int),
            old(self).no_progress < u32::MAX,
        ensures
            final(self).wf(),
            final(self).n == old(self).n,
            final(self).flying == old(self).flying,
            final(self).men_back == old(self).men_back,
            final(self).max_capture == old(self).max_capture,
            final(self).promote_mid == old(self).promote_mid,
            final(self).misere == old(self).misere,
            final(self).men_no_king == old(self).men_no_king,
            final(self).capture_priority == old(self).capture_priority,
            final(self).current == 1 - old(self).current,
            final(self).grid@.len() == old(self).grid@.len(),
            forall|q: int| 0 <= q < old(self).grid@.len() ==> #[trigger] final(self).grid@[q] == old(self).after_cell(*m, old(self).current, q),
            final(self).no_progress == if m.captured@.len() > 0 || !(old(self).grid@[m.path@[0] as int] is King) {
                0
            } else {
                old(self).no_progress + 1
            },
    {
        let ghost g0 = *self;
        let owner = self.current;
        let from = m.path[0] as usize;
        let was_king = is_king_cell(self.grid[from]);
        let mut i: usize = 0;
        while i < m.captured.len()
            invariant
                self.wf(),
                same_config(*self, g0),
                move_on_board(*m, g0.grid@.len() as int),
                self.grid@.len() == g0.grid@.len(),
                i <= m.captured@.len(),
                forall|q: int| 0 <= q < g0.grid@.len() ==> #[trigger] self.grid@[q] == if m.captured@.take(i as int).contains(q as u16) {
                    Cell::Empty
                } else {
                    g0.grid@[q]
                },
            decreases m.captured@.len() - i,
        {
            let cap = m.captured[i] as usize;
            self.grid.set(cap, Cell::Empty);
            proof {
                assert forall|q: int| 0 <= q < g0.grid@.len() implies #[trigger] self.grid@[q] == if m.captured@.take(i + 1).contains(q as u16) {
                    Cell::Empty
                } else {
                    g0.grid@[q]
                } by {
                    let t = m.captured@.take(i + 1);
                    assert(t[i as int] == m.captured@[i as int]);
                    if m.captured@.take(i as int).contains(q as u16) {
                        let k = choose|k: int| 0 <= k < i && m.captured@.take(i as int)[k] == q as u16;
                        assert(t[k] == m.captured@.take(i as int)[k]);
                    }
                    if t.contains(q as u16) && q != cap {
                        let k = choose|k: int| 0 <= k < i + 1 && t[k] == q as u16;
                        assert(k != i);
                        assert(m.captured@.take(i as int)[k] == t[k]);
                    }
                }
            }
            i += 1;
        }
        proof {
            assert(m.captured@.take(m.captured@.len() as int) =~= m.captured@);
        }
        self.grid.set(from, Cell::Empty);
        let to = m.path[m.path.len() - 1] as usize;
        let pr = self.promo_row(owner);
        let ends_on_promo = to / self.n == pr;
        let mut crossed_promo = false;
        if self.promote_mid {
            let mut j: usize = 1;
            while j < m.path.len()
                invariant
                    self.wf(),
                    same_config(*self, g0),
                    move_on_board(*m, g0.grid@.len() as int),
                    1 <= j <= m.path@.len(),
                    pr == promo_row_spec(g0.n as int, owner),
                    crossed_promo == exists|k: int| 1 <= k < j && #[trigger] (m.path@[k] as int / g0.n as int) == pr,
                decreases m.path@.len() - j,
            {
                if m.path[j] as usize / self.n == pr {
                    crossed_promo = true;
                }
                j += 1;
            }
        }
        let king = was_king || ends_on_promo || crossed_promo;
        self.grid.set(to, if king { Cell::King(owner) } else { Cell::Man(owner) });
        if m.captured.len() > 0 || !was_king {
            self.no_progress = 0;
        } else {
            self.no_progress = self.no_progress + 1;
        }
        self.current = 1 - owner;
        proof {
            assert forall|q: int| 0 <= q < g0.grid@.len() implies #[trigger] self.grid@[q] == g0.after_cell(*m, g0.current, q) by {}
        }
    }

    /// Terminal value for the side to move: no legal move loses (wins under misère),
    /// taking precedence over the no-progress draw.
    pub fn term(&self) -> (r: Option<Outcome>)
        requires
            self.wf(),
        ensures
            r == if !self.has_move(self.current) {
                Some(if self.misere { Outcome::Win } else { Outcome::Loss })
            } else if self.no_progress >= DRAW_PLIES {
                Some(Outcome::Draw)
            } else {
                None
            },
    {
        if self.gen().len() == 0 {
            return Some(if self.misere { Outcome::Win } else { Outcome::Loss });
        }
        if self.no_progress >= DRAW_PLIES {
            return Some(Outcome::Draw);
        }
        None
    }

    /// Number of men and kings equal to the given cells.
    pub fn count(&self, cell_owner_man: Cell, cell_owner_king: Cell) -> (mk: (i64, i64))
        requires
            self.wf(),
        ensures
            mk.0 == count_cell(self.grid@, cell_owner_man, self.grid@.len() as int),
            mk.1 == count_cell(self.grid@, cell_owner_king, self.grid@.len() as int),
            0 <= mk.0 <= self.grid@.len(),
            0 <= mk.1 <= self.grid@.len(),
    {
        let mut men: i64 = 0;
        let mut kings: i64 = 0;
        let mut i: usize = 0;
        while i < self.grid.len()
            invariant
                self.wf(),
                i <= self.grid@.len(),
                men == count_cell(self.grid@, cell_owner_man, i as int),
                kings == count_cell(self.grid@, cell_owner_king, i as int),
                0 <= men <= i,
                0 <= kings <= i,
            decreases self.grid@.len() - i,
        {
            if self.grid[i] == cell_owner_man {
                men += 1;
            }
            if self.grid[i] == cell_owner_king {
                kings += 1;
            }
            i += 1;
        }
        (men, kings)
    }

    /// Static evaluation from seat 0's perspective: material plus the mobility weight
    /// times (seat 0's legal moves - seat 1's legal moves).
    pub fn eval0(&self) -> (e: i64)
        requires
            self.wf(),
        ensures
            exists|ms0: Seq<DMove>, ms1: Seq<DMove>|
                {
                    &&& #[trigger] self.move_list(0, ms0)
                    &&& #[trigger] self.move_list(1, ms1)
                    &&& (i64::MIN <= self.eval_with(ms0.len() as int, ms1.len() as int) <= i64::MAX ==> e == self.eval_with(
                        ms0.len() as int,
                        ms1.len() as int,
                    ))
                },
    {
        let (m0, k0) = self.count(Cell::Man(0), Cell::King(0));
        let (m1, k1) = self.count(Cell::Man(1), Cell::King(1));
        let material = MAN_VAL * (m0 - m1) + KING_VAL * (k0 - k1);
        let material = if self.misere { -material } else { material };
        let g0 = self.gen_for(0);
        let g1 = self.gen_for(1);
        let l0 = g0.len();
        let l1 = g1.len();
        assert(self.move_list(0, g0@));
        assert(self.move_list(1, g1@));
        let mobility: i128 = l0 as i128 - l1 as i128;
        let total: i128 = material as i128 + MOBILITY as i128 * mobility;
        let e = #[verifier::truncate] (total as i64);
        assert(material as int == self.material_spec());
        assert(i64::MIN <= self.eval_with(l0 as int, l1 as int) <= i64::MAX ==> e == self.eval_with(l0 as int, l1 as int));
        e
    }
}

/// Board character of a cell: ' ' empty, seat-0 man/king 'x'/'X', seat-1 man/king 'o'/'O'.
pub open spec fn cell_char(c: Cell) -> char {
    match c {
        Cell::Empty => ' ',
        Cell::Man(0) => 'x',
        Cell::King(0) => 'X',
        Cell::Man(1) => 'o',
        Cell::King(1) => 'O',
        _ => ' ',
    }
}

/// Text of a move: its path, dash-joined (`"12-19"`, `"12-19-26"`).
pub open spec fn move_text(m: DMove) -> Seq<char> {
    join_nums(u16s(m.path@), '-')
}

/// The texts of `ms`, comma-joined.
pub open spec fn moves_text(ms: Seq<DMove>) -> Seq<char>
    decreases ms.len(),
{
    if ms.len() == 0 {
        Seq::empty()
    } else if ms.len() == 1 {
        move_text(ms[0])
    } else {
        moves_text(ms.drop_last()).push(',') + move_text(ms.last())
    }
}

/// The path a move text names: the dash-separated decimal squares, at least two.
pub open spec fn path_of_text(s: Seq<char>) -> Option<Seq<int>> {
    match parse_list(s, '-', u16::MAX as int) {
        Some(p) => if p.len() >= 2 {
            Some(p)
        } else {
            None
        },
        None => None,
    }
}

/// Decimal text of a seat number plus one (the 1-based player shown to users).
pub open spec fn seat_text(seat: int) -> Seq<char> {
    dec((seat + 1) as nat)
}

pub open spec fn draw_text() -> Seq<char> {
    seq!['D', 'r', 'a', 'w']
}

impl DMove {
    /// The dash-joined path.
    pub fn encode(&self) -> (s: String)
        ensures
            s@ == move_text(*self),
    {
        let mut s = String::new();
        push_joined(&mut s, &self.path, '-');
        proof {
            assert(s@ =~= Seq::<char>::empty() + move_text(*self));
        }
        s
    }

    /// Parse the dash-joined path form. The captured set is not encoded: callers
    /// resolve it by matching against generated moves.
    pub fn parse_path(s: &str) -> (r: Option<Vec<u16>>)
        ensures
            r matches Some(p) ==> path_of_text(s@) == Some(u16s(p@)),
            r is None ==> path_of_text(s@) is None,
    {
        let cs = chars_of(s);
        match parse_u16_list(&cs, '-') {
            Some(p) => {
                if p.len() >= 2 {
                    Some(p)
                } else {
                    None
                }
            },
            None => None,
        }
    }
}

/// Reading back the text of a path of at least two squares gives the path.
pub proof fn lemma_move_text_round_trip(m: DMove)
    requires
        m.path@.len() >= 2,
    ensures
        path_of_text(move_text(m)) == Some(u16s(m.path@)),
{
    let p = u16s(m.path@);
    assert forall|i: int| 0 <= i < p.len() implies 0 <= #[trigger] p[i] <= u16::MAX as int by {}
    lemma_parse_list_join(p, '-', u16::MAX as int);
}

/// `size` 10 and 12 are kept, anything else becomes 8; `men_rows` is clamped to leave at
/// least one empty middle row per side.
pub fn clamp_cfg(size: u32, men_rows: u32) -> (r: (usize, usize))
    ensures
        r.0 == clamp_cfg_spec(size),
        r.1 == (if men_rows < 1 { 1 } else if men_rows > r.0 / 2 - 1 { r.0 / 2 - 1 } else { men_rows as int }),
{
    let n: usize = if size == 10 {
        10
    } else if size == 12 {
        12
    } else {
        8
    };
    let hi = n / 2 - 1;
    let m: usize = if men_rows < 1 {
        1
    } else if men_rows as usize > hi {
        hi
    } else {
        men_rows as usize
    };
    (n, m)
}

impl Draughts {
    /// A game from the front end's numeric configuration: board `size` 8|10|12,
    /// `men_rows`, seven 0/1 rule flags and the capture-priority mode.
    #[allow(clippy::too_many_arguments)]
    pub fn from_config(
        size: u32,
        men_rows: u32,
        flying_kings: u32,
        men_capture_back: u32,
        max_capture: u32,
        promote_mid_chain: u32,
        misere: u32,
        men_cannot_capture_kings: u32,
        capture_priority: u32,
    ) -> (g: Self)
        ensures
            g.wf(),
            g.n == clamp_cfg_spec(size),
            g.flying == (flying_kings != 0),
            g.men_back == (men_capture_back != 0),
            g.promote_mid == (promote_mid_chain != 0),
            g.misere == (misere != 0),
            g.men_no_king == (men_cannot_capture_kings != 0),
            g.capture_priority == (if capture_priority > 2 { 2 } else { capture_priority }),
            g.max_capture == (max_capture != 0 || capture_priority > 0),
            g.current == 0,
            g.no_progress == 0,
    {
        let (n, rows) = clamp_cfg(size, men_rows);
        let cp: u8 = if capture_priority > 2 { 2 } else { capture_priority as u8 };
        Draughts::new(
            n,
            rows,
            flying_kings != 0,
            men_capture_back != 0,
            max_capture != 0 || cp > 0,
            promote_mid_chain != 0,
            misere != 0,
            men_cannot_capture_kings != 0,
            cp,
        )
    }

    /// One character per cell, row-major over the full grid (see `cell_char`).
    pub fn board_string(&self) -> (s: String)
        ensures
            s@.len() == self.grid@.len(),
            forall|i: int| 0 <= i < self.grid@.len() ==> #[trigger] s@[i] == cell_char(self.grid@[i]),
    {
        let mut s = String::new();
        let mut i: usize = 0;
        while i < self.grid.len()
            invariant
                i <= self.grid@.len(),
                s@.len() == i,
                forall|j: int| 0 <= j < i ==> #[trigger] s@[j] == cell_char(self.grid@[j]),
            decreases self.grid@.len() - i,
        {
            let c = match self.grid[i] {
                Cell::Empty => ' ',
                Cell::Man(0) => 'x',
                Cell::King(0) => 'X',
                Cell::Man(1) => 'o',
                Cell::King(1) => 'O',
                _ => ' ',
            };
            push_char(&mut s, c);
            i += 1;
        }
        s
    }

    /// "1"/"2" for the winning seat, "Draw", or "" while the game is on.
    pub fn result_string(&self) -> (s: String)
        requires
            self.wf(),
        ensures
            s@ == if !self.has_move(self.current) {
                if self.misere {
                    seat_text(self.current as int)
                } else {
                    seat_text(1 - self.current)
                }
            } else if self.no_progress >= DRAW_PLIES {
                draw_text()
            } else {
                Seq::empty()
            },
    {
        let mut s = String::new();
        match self.term() {
            Some(Outcome::Win) => push_dec(&mut s, self.current as u64 + 1),
            Some(Outcome::Loss) => push_dec(&mut s, (1 - self.current) as u64 + 1),
            Some(Outcome::Draw) => {
                push_char(&mut s, 'D');
                push_char(&mut s, 'r');
                push_char(&mut s, 'a');
                push_char(&mut s, 'w');
            },
            None => {},
        }
        proof {
            assert(s@ =~= (if !self.has_move(self.current) {
                if self.misere {
                    seat_text(self.current as int)
                } else {
                    seat_text(1 - self.current)
                }
            } else if self.no_progress >= DRAW_PLIES {
                draw_text()
            } else {
                Seq::empty()
            }));
        }
        s
    }

    /// Comma-separated texts of the legal moves for the side to move.
    pub fn legal_moves_string(&self) -> (s: String)
        requires
            self.wf(),
        ensures
            exists|ms: Seq<DMove>|
                {
                    &&& s@ == #[trigger] moves_text(ms)
                    &&& (ms.len() == 0 <==> !self.has_move(self.current))
                    &&& forall|i: int| 0 <= i < ms.len() ==> self.legal(#[trigger] ms[i])
                    &&& forall|m: DMove| #[trigger] self.legal(m) ==> among(m, ms)
                    &&& in_order(self.n as int, ms, 0)
                },
    {
        let ms = self.gen();
        let mut s = String::new();
        let mut i: usize = 0;
        while i < ms.len()
            invariant
                i <= ms@.len(),
                s@ == moves_text(ms@.take(i as int)),
            decreases ms@.len() - i,
        {
            let t = ms[i].encode();
            if i > 0 {
                push_char(&mut s, ',');
            }
            let tc = chars_of(t.as_str());
            let mut k: usize = 0;
            let ghost s0 = s@;
            while k < tc.len()
                invariant
                    k <= tc@.len(),
                    s@ == s0 + tc@.take(k as int),
                decreases tc@.len() - k,
            {
                push_char(&mut s, tc[k]);
                k += 1;
                assert(s@ =~= s0 + tc@.take(k as int));
            }
            proof {
                assert(tc@.take(tc@.len() as int) =~= tc@);
                let tk = ms@.take(i + 1);
                assert(tk.drop_last() =~= ms@.take(i as int));
                assert(tk.last() == ms@[i as int]);
                if i == 0 {
                    assert(s@ =~= moves_text(tk));
                } else {
                    assert(s@ =~= moves_text(tk));
                }
            }
            i += 1;
        }
        proof {
            assert(ms@.take(ms@.len() as int) =~= ms@);
        }
        s
    }
}

pub open spec fn clamp_cfg_spec(size: u32) -> int {
    if size == 10 {
        10
    } else if size == 12 {
        12
    } else {
        8
    }
}

fn eq_u16s(a: &Vec<u16>, b: &Vec<u16>) -> (res: bool)
    ensures
        res == (a@ == b@),
{
    if a.len() != b.len() {
        return false;
    }
    let mut i: usize = 0;
    while i < a.len()
        invariant
            a@.len() == b@.len(),
            i <= a@.len(),
            forall|j: int| 0 <= j < i ==> a@[j] == b@[j],
        decreases a@.len() - i,
    {
        if a[i] != b[i] {
            return false;
        }
        i += 1;
    }
    assert(a@ =~= b@);
    true
}

impl Draughts {
    proof fn lemma_quiet_on_board(&self, m: DMove, owner: u8)
        requires
            self.wf(),
            self.quiet_move(m, owner),
        ensures
            move_on_board(m, self.grid@.len() as int),
    {
        let n = self.n as int;
        let sq = m.path@[0] as int;
        let t = m.path@[1] as int;
        let (dr, dc, d) = choose|dr: int, dc: int, d: int|
            {
                &&& is_diag(dr, dc)
                &&& t == ray_sq(n, sq, dr, dc, d)
                &&& 1 <= d
                &&& forall|k: int| 1 <= k <= d ==> #[trigger] empty_on(self.grid@, n, sq, dr, dc, k)
                &&& if self.grid@[sq] == Cell::Man(owner) {
                    dr == forward(owner) && d == 1
                } else {
                    self.grid@[sq] == Cell::King(owner) && (self.flying || d == 1)
                }
            };
        assert(empty_on(self.grid@, n, sq, dr, dc, d));
        lemma_ray_sq_bound(n, sq, dr, dc, d);
    }

    /// The moves of `gen` lie on the board.
    proof fn lemma_gen_on_board(&self, ms: Seq<DMove>)
        requires
            self.wf(),
            forall|i: int| 0 <= i < ms.len() ==> self.legal(#[trigger] ms[i]),
        ensures
            forall|i: int| 0 <= i < ms.len() ==> move_on_board(#[trigger] ms[i], self.grid@.len() as int),
    {
        assert forall|i: int| 0 <= i < ms.len() implies move_on_board(#[trigger] ms[i], self.grid@.len() as int) by {
            let m = ms[i];
            assert(self.legal(m));
            if self.any_capture(self.current) {
                self.lemma_chain_on_board(self.lifted(m.path@[0] as int), m.path@, m.captured@, self.grid@[m.path@[0] as int] is King, self.current);
            } else {
                self.lemma_quiet_on_board(m, self.current);
            }
        }
    }

    /// A legal move for the side to move: a capture that the rules let it choose when
    /// it can capture, a quiet move otherwise.
    pub open spec fn legal(&self, m: DMove) -> bool {
        if self.any_capture(self.current) {
            self.best_capture(m, self.current)
        } else {
            self.quiet_move(m, self.current)
        }
    }

    /// Apply the move named by its path text. Returns false, leaving the game unchanged,
    /// when the text is not a path or names no generated legal move.
    pub fn apply_move_str(&mut self, mov: &str) -> (ok: bool)
        requires
            old(self).wf(),
            old(self).no_progress < u32::MAX,
        ensures
            ok == (path_of_text(mov@) matches Some(p) && exists|m: DMove| #[trigger] old(self).legal(m) && u16s(m.path@) == p),
            !ok ==> *final(self) == *old(self),
            ok ==> exists|m: DMove|
                {
                    &&& #[trigger] old(self).legal(m)
                    &&& path_of_text(mov@) == Some(u16s(m.path@))
                    &&& final(self).current == 1 - old(self).current
                    &&& forall|q: int| 0 <= q < old(self).grid@.len() ==> #[trigger] final(self).grid@[q] == old(self).after_cell(m, old(self).current, q)
                    &&& final(self).no_progress == if m.captured@.len() > 0 || !(old(self).grid@[m.path@[0] as int] is King) {
                        0
                    } else {
                        old(self).no_progress + 1
                    }
                },
            ok ==> final(self).wf(),
            ok ==> final(self).n == old(self).n && final(self).grid@.len() == old(self).grid@.len(),
            ok ==> final(self).flying == old(self).flying && final(self).men_back == old(self).men_back && final(self).max_capture
                == old(self).max_capture && final(self).promote_mid == old(self).promote_mid && final(self).misere == old(self).misere
                && final(self).men_no_king == old(self).men_no_king && final(self).capture_priority == old(self).capture_priority,
    {
        let p = match DMove::parse_path(mov) {
            Some(p) => p,
            None => return false,
        };
        let ms = self.gen();
        proof {
            self.lemma_gen_on_board(ms@);
        }
        let mut i: usize = 0;
        while i < ms.len()
            invariant
                *self == *old(self),
                self.wf(),
                self.no_progress < u32::MAX,
                path_of_text(mov@) == Some(u16s(p@)),
                forall|i: int| 0 <= i < ms@.len() ==> self.legal(#[trigger] ms@[i]),
                forall|m: DMove| #[trigger] self.legal(m) ==> among(m, ms@),
                forall|i: int| 0 <= i < ms@.len() ==> move_on_board(#[trigger] ms@[i], self.grid@.len() as int),
                i <= ms@.len(),
                forall|j: int| 0 <= j < i ==> #[trigger] ms@[j].path@ != p@,
            decreases ms@.len() - i,
        {
            if eq_u16s(&ms[i].path, &p) {
                proof {
                    assert(self.legal(ms@[i as int]));
                    assert(u16s(ms@[i as int].path@) == u16s(p@));
                }
                self.apply(&ms[i]);
                return true;
            }
            i += 1;
        }
        proof {
            assert forall|m: DMove| #[trigger] self.legal(m) implies u16s(m.path@) != u16s(p@) by {
                let j = choose|j: int| 0 <= j < ms@.len() && same_move(m, #[trigger] ms@[j]);
                if u16s(m.path@) == u16s(p@) {
                    assert forall|k: int| 0 <= k < p@.len() implies m.path@[k] == p@[k] by {
                        assert(u16s(m.path@)[k] == u16s(p@)[k]);
                    }
                    assert(m.path@ =~= p@);
                    assert(ms@[j].path@ == p@);
                }
            }
        }
        false
    }

    /// Every square named by `m` lies on the board (checked before playing a move
    /// that comes from outside the engine).
    pub fn on_board(&self, m: &DMove) -> (res: bool)
        requires
            self.wf(),
        ensures
            res == move_on_board(*m, self.grid@.len() as int),
    {
        if m.path.len() < 1 || m.captured.len() > self.grid.len() {
            return false;
        }
        let mut i: usize = 0;
        while i < m.path.len()
            invariant
                i <= m.path@.len(),
                forall|j: int| 0 <= j < i ==> (#[trigger] m.path@[j] as int) < self.grid@.len(),
            decreases m.path@.len() - i,
        {
            if m.path[i] as usize >= self.grid.len() {
                return false;
            }
            i += 1;
        }
        let mut i: usize = 0;
        while i < m.captured.len()
            invariant
                i <= m.captured@.len(),
                forall|j: int| 0 <= j < i ==> (#[trigger] m.captured@[j] as int) < self.grid@.len(),
            decreases m.captured@.len() - i,
        {
            if m.captured[i] as usize >= self.grid.len() {
                return false;
            }
            i += 1;
        }
        true
    }
}

/// Evaluation `e` (from seat 0's perspective) as seen by `player`.
pub fn for_player(e: i64, player: u8) -> (r: i64)
    requires
        e > i64::MIN,
    ensures
        r == if player == 0 { e as int } else { -e },
{
    if player == 0 {
        e
    } else {
        -e
    }
}

} // verus!
