//! Len Choa, the Thai tiger-and-leopards hunt on a ten-point triangle: an apex and
//! three rows of three below it, joined by the triangle's sides, two breadth lines
//! and the central axis. The leopards move first: they drop their six men one per
//! turn, then slide along the lines. The tiger starts on the apex, slides along
//! the lines or leaps a single adjacent leopard to the empty point beyond, which
//! removes it. Three captures win for the tiger; a tiger that cannot move loses. A
//! long stretch without placement or capture is a draw.
use vstd::prelude::*;
use crate::outcome::Outcome;
use crate::text::{push_char, push_str, push_dec, dec, chars_of, parse_uint, parse_uint_range};

verus! {

pub const N: usize = 10;
pub const LEOPARD: u8 = 0;
pub const TIGER: u8 = 1;
pub const LEOPARDS: u32 = 6;
/// Captures that win for the tiger.
pub const CAPTURE_TARGET: u32 = 3;
/// `from` of a leopard placement.
pub const PLACE: u8 = 255;
/// Plies without a placement or capture after which the game is drawn.
pub const DRAW_PLY_CAP: u32 = 60;

/// A leopard placement (`from == PLACE`) or a slide or leap from `from` to `to`.
#[derive(Clone, Copy, Debug, PartialEq, Eq, Structural)]
pub struct LcMove {
    pub from: u8,
    pub to: u8,
}

/// The points joined to point `p` by a drawn line.
pub open spec fn adj(p: int) -> Seq<int> {
    if p == 0 {
        seq![1, 2, 3]
    } else if p == 1 {
        seq![0, 2, 4]
    } else if p == 2 {
        seq![0, 1, 3, 5]
    } else if p == 3 {
        seq![0, 2, 6]
    } else if p == 4 {
        seq![1, 5, 7]
    } else if p == 5 {
        seq![2, 4, 6, 8]
    } else if p == 6 {
        seq![3, 5, 9]
    } else if p == 7 {
        seq![4, 8]
    } else if p == 8 {
        seq![5, 7, 9]
    } else {
        seq![6, 8]
    }
}

/// Leap line `k`: an end point, the point leapt over, the other end point.
pub open spec fn jump(k: int) -> (int, int, int) {
    if k == 0 {
        (0, 1, 4)
    } else if k == 1 {
        (1, 4, 7)
    } else if k == 2 {
        (0, 3, 6)
    } else if k == 3 {
        (3, 6, 9)
    } else if k == 4 {
        (0, 2, 5)
    } else if k == 5 {
        (2, 5, 8)
    } else if k == 6 {
        (1, 2, 3)
    } else if k == 7 {
        (4, 5, 6)
    } else {
        (7, 8, 9)
    }
}

/// Leap line `k`.
pub fn jump_cells(k: usize) -> (t: (u8, u8, u8))
    requires
        k < 9,
    ensures
        (t.0 as int, t.1 as int, t.2 as int) == jump(k as int),
{
    if k == 0 {
        (0, 1, 4)
    } else if k == 1 {
        (1, 4, 7)
    } else if k == 2 {
        (0, 3, 6)
    } else if k == 3 {
        (3, 6, 9)
    } else if k == 4 {
        (0, 2, 5)
    } else if k == 5 {
        (2, 5, 8)
    } else if k == 6 {
        (1, 2, 3)
    } else if k == 7 {
        (4, 5, 6)
    } else {
        (7, 8, 9)
    }
}

/// The points joined to point `p` by a drawn line.
pub fn neighbours(p: u8) -> (v: Vec<u8>)
    requires
        p < 10,
    ensures
        v@.len() == adj(p as int).len(),
        forall|i: int| 0 <= i < v@.len() ==> #[trigger] v@[i] as int == adj(p as int)[i],
{
    if p == 0 {
        vec![1, 2, 3]
    } else if p == 1 {
        vec![0, 2, 4]
    } else if p == 2 {
        vec![0, 1, 3, 5]
    } else if p == 3 {
        vec![0, 2, 6]
    } else if p == 4 {
        vec![1, 5, 7]
    } else if p == 5 {
        vec![2, 4, 6, 8]
    } else if p == 6 {
        vec![3, 5, 9]
    } else if p == 7 {
        vec![4, 8]
    } else if p == 8 {
        vec![5, 7, 9]
    } else {
        vec![6, 8]
    }
}

/// The middle of the first leap line among the first `k` with end points `from`
/// and `to` (either way round).
pub open spec fn leap_from(from: int, to: int, k: int) -> Option<int>
    decreases k,
{
    if k <= 0 {
        None
    } else {
        match leap_from(from, to, k - 1) {
            Some(b) => Some(b),
            None => {
                let (a, b, c) = jump(k - 1);
                if (a == from && c == to) || (a == to && c == from) {
                    Some(b)
                } else {
                    None
                }
            },
        }
    }
}

/// The point leapt over when moving from `from` to `to`, if that is a leap.
pub open spec fn leap_mid_spec(from: int, to: int) -> Option<int> {
    leap_from(from, to, 9)
}

/// The middle point of a leap from `from` to `to`, if it is one.
pub fn leap_mid(from: u8, to: u8) -> (r: Option<u8>)
    ensures
        r matches Some(b) ==> leap_mid_spec(from as int, to as int) == Some(b as int),
        r is None ==> leap_mid_spec(from as int, to as int) is None,
{
    let mut k: usize = 0;
    while k < 9
        invariant
            k <= 9,
            leap_from(from as int, to as int, k as int) is None,
        decreases 9 - k,
    {
        let (a, b, c) = jump_cells(k);
        if (a == from && c == to) || (a == to && c == from) {
            proof {
                reveal_with_fuel(leap_from, 10);
            }
            return Some(b);
        }
        k += 1;
    }
    None
}

/// Placements on the empty points among the first `k`.
pub open spec fn places_upto(g: Seq<i8>, k: int) -> Seq<LcMove>
    decreases k,
{
    if k <= 0 {
        seq![]
    } else {
        places_upto(g, k - 1) + if g[k - 1] < 0 { seq![LcMove { from: PLACE, to: (k - 1) as u8 }] } else { seq![] }
    }
}

/// Slides from `i` to the empty points among its first `j` neighbours.
pub open spec fn steps_upto(g: Seq<i8>, i: int, j: int) -> Seq<LcMove>
    decreases j,
{
    if j <= 0 {
        seq![]
    } else {
        steps_upto(g, i, j - 1) + if g[adj(i)[j - 1]] < 0 {
            seq![LcMove { from: i as u8, to: adj(i)[j - 1] as u8 }]
        } else {
            seq![]
        }
    }
}

/// Leaps from `i` along the first `k` leap lines over a leopard to an empty point.
pub open spec fn leaps_upto(g: Seq<i8>, i: int, k: int) -> Seq<LcMove>
    decreases k,
{
    if k <= 0 {
        seq![]
    } else {
        let (a, b, c) = jump(k - 1);
        leaps_upto(g, i, k - 1) + if g[b] != LEOPARD as i8 {
            seq![]
        } else {
            (if a == i && g[c] < 0 { seq![LcMove { from: i as u8, to: c as u8 }] } else { seq![] }) + (if c == i && g[a] < 0 {
                seq![LcMove { from: i as u8, to: a as u8 }]
            } else {
                seq![]
            })
        }
    }
}

/// Moves of the pieces `piece` on the first `k` points: slides, and leaps for the
/// tiger.
pub open spec fn moves_upto(g: Seq<i8>, piece: i8, k: int) -> Seq<LcMove>
    decreases k,
{
    if k <= 0 {
        seq![]
    } else {
        moves_upto(g, piece, k - 1) + if g[k - 1] == piece {
            steps_upto(g, k - 1, adj(k - 1).len() as int) + if piece == TIGER as i8 {
                leaps_upto(g, k - 1, 9)
            } else {
                seq![]
            }
        } else {
            seq![]
        }
    }
}

proof fn lemma_adj_on_board(p: int)
    requires
        0 <= p < 10,
    ensures
        adj(p).len() <= 4,
        forall|i: int| 0 <= i < adj(p).len() ==> 0 <= #[trigger] adj(p)[i] < 10,
{
}

proof fn lemma_jump_on_board(k: int)
    requires
        0 <= k < 9,
    ensures
        0 <= jump(k).0 < 10,
        0 <= jump(k).1 < 10,
        0 <= jump(k).2 < 10,
{
}

#[derive(Clone, Debug)]
pub struct LenChoa {
    /// -1 empty, 0 leopard, 1 tiger.
    pub grid: [i8; 10],
    pub current: u8,
    /// Leopards still to place.
    pub in_hand: u32,
    /// Leopards taken by the tiger.
    pub captured: u32,
    /// Plies since the last placement or capture.
    pub progress_ply: u32,
}

impl LenChoa {
    /// Leopards drop while they have men in hand and slide afterwards; the tiger
    /// (any other side) slides and leaps.
    pub open spec fn gen_spec(&self) -> Seq<LcMove> {
        if self.current == LEOPARD {
            if self.in_hand > 0 {
                places_upto(self.grid@, 10)
            } else {
                moves_upto(self.grid@, LEOPARD as i8, 10)
            }
        } else {
            moves_upto(self.grid@, TIGER as i8, 10)
        }
    }

    /// Three captures win for the tiger; the stall cap draws; a side without a move
    /// loses.
    pub open spec fn term_spec(&self) -> Option<Outcome> {
        if self.captured >= CAPTURE_TARGET {
            Some(if self.current == TIGER { Outcome::Win } else { Outcome::Loss })
        } else if self.progress_ply >= DRAW_PLY_CAP {
            Some(Outcome::Draw)
        } else if self.gen_spec().len() == 0 {
            Some(Outcome::Loss)
        } else {
            None
        }
    }

    /// The tiger on the apex, six leopards in hand, the leopards to move.
    pub fn new() -> (g: Self)
        ensures
            g.current == LEOPARD,
            g.in_hand == LEOPARDS,
            g.captured == 0,
            g.progress_ply == 0,
            forall|i: int| 0 <= i < 10 ==> #[trigger] g.grid@[i] == (if i == 0 { TIGER as i8 } else { -1i8 }),
    {
        let mut grid = [-1i8; 10];
        grid[0] = TIGER as i8;
        LenChoa { grid, current: LEOPARD, in_hand: LEOPARDS, captured: 0, progress_ply: 0 }
    }

    pub fn current_player(&self) -> (p: u8)
        ensures
            p == self.current,
    {
        self.current
    }

    pub fn gen(&self) -> (v: Vec<LcMove>)
        ensures
            v@ == self.gen_spec(),
    {
        let mut v: Vec<LcMove> = Vec::new();
        if self.current == LEOPARD && self.in_hand > 0 {
            let mut i: usize = 0;
            while i < 10
                invariant
                    i <= 10,
                    v@ == places_upto(self.grid@, i as int),
                decreases 10 - i,
            {
                if self.grid[i] < 0 {
                    v.push(LcMove { from: PLACE, to: i as u8 });
                }
                i += 1;
            }
            return v;
        }
        let piece: i8 = if self.current == LEOPARD { LEOPARD as i8 } else { TIGER as i8 };
        let mut i: usize = 0;
        while i < 10
            invariant
                i <= 10,
                piece == LEOPARD as i8 || piece == TIGER as i8,
                v@ == moves_upto(self.grid@, piece, i as int),
            decreases 10 - i,
        {
            if self.grid[i] == piece {
                let ghost before = v@;
                let nbs = neighbours(i as u8);
                proof {
                    lemma_adj_on_board(i as int);
                }
                let mut j: usize = 0;
                while j < nbs.len()
                    invariant
                        i < 10,
                        nbs@.len() == adj(i as int).len(),
                        forall|t: int| 0 <= t < nbs@.len() ==> #[trigger] nbs@[t] as int == adj(i as int)[t],
                        forall|t: int| 0 <= t < adj(i as int).len() ==> 0 <= #[trigger] adj(i as int)[t] < 10,
                        j <= nbs@.len(),
                        v@ == before + steps_upto(self.grid@, i as int, j as int),
                    decreases nbs@.len() - j,
                {
                    let n = nbs[j];
                    if self.grid[n as usize] < 0 {
                        v.push(LcMove { from: i as u8, to: n });
                    }
                    proof {
                        assert(v@ =~= before + steps_upto(self.grid@, i as int, j + 1));
                    }
                    j += 1;
                }
                if piece == TIGER as i8 {
                    let ghost mid = v@;
                    let mut k: usize = 0;
                    while k < 9
                        invariant
                            i < 10,
                            k <= 9,
                            v@ == mid + leaps_upto(self.grid@, i as int, k as int),
                        decreases 9 - k,
                    {
                        let (a, b, c) = jump_cells(k);
                        proof {
                            lemma_jump_on_board(k as int);
                        }
                        if self.grid[b as usize] == LEOPARD as i8 {
                            if a == i as u8 && self.grid[c as usize] < 0 {
                                v.push(LcMove { from: i as u8, to: c });
                            }
                            if c == i as u8 && self.grid[a as usize] < 0 {
                                v.push(LcMove { from: i as u8, to: a });
                            }
                        }
                        proof {
                            assert(v@ =~= mid + leaps_upto(self.grid@, i as int, k + 1));
                        }
                        k += 1;
                    }
                }
            }
            proof {
                assert(v@ =~= moves_upto(self.grid@, piece, i + 1));
            }
            i += 1;
        }
        v
    }

    pub fn available_moves(&self) -> (v: Vec<LcMove>)
        ensures
            v@ == self.gen_spec(),
    {
        self.gen()
    }

    pub fn term(&self) -> (t: Option<Outcome>)
        ensures
            t == self.term_spec(),
    {
        if self.captured >= CAPTURE_TARGET {
            return Some(if self.current == TIGER { Outcome::Win } else { Outcome::Loss });
        }
        if self.progress_ply >= DRAW_PLY_CAP {
            return Some(Outcome::Draw);
        }
        if self.gen().len() == 0 {
            return Some(Outcome::Loss);
        }
        None
    }

    pub fn terminal_value(&self) -> (t: Option<Outcome>)
        ensures
            t == self.term_spec(),
    {
        self.term()
    }

    pub fn is_terminal(&self) -> (b: bool)
        ensures
            b == self.term_spec() is Some,
    {
        self.term().is_some()
    }

    /// The position after the side to move plays `m`: a placement drops a leopard;
    /// a move carries the piece, and a move between points that are not neighbours
    /// along a leap line removes the leopard leapt over.
    pub open spec fn moved(&self, next: LenChoa, m: LcMove) -> bool {
        let g = self.grid@;
        &&& next.current == 1 - self.current
        &&& if m.from == PLACE {
            &&& next.grid@ == g.update(m.to as int, LEOPARD as i8)
            &&& next.in_hand == self.in_hand - 1
            &&& next.captured == self.captured
            &&& next.progress_ply == 0
        } else {
            let g1 = g.update(m.from as int, -1i8).update(m.to as int, g[m.from as int]);
            &&& next.in_hand == self.in_hand
            &&& if adj(m.from as int).contains(m.to as int) {
                &&& next.grid@ == g1
                &&& next.captured == self.captured
                &&& next.progress_ply == self.progress_ply + 1
            } else {
                match leap_mid_spec(m.from as int, m.to as int) {
                    Some(b) => {
                        &&& next.grid@ == g1.update(b, -1i8)
                        &&& next.captured == self.captured + 1
                        &&& next.progress_ply == 0
                    },
                    None => {
                        &&& next.grid@ == g1
                        &&& next.captured == self.captured
                        &&& next.progress_ply == self.progress_ply
                    },
                }
            }
        }
    }

    pub fn make_move(&mut self, m: &LcMove)
        requires
            old(self).current < 2,
            m.to < 10,
            m.from == PLACE || m.from < 10,
            m.from == PLACE ==> old(self).in_hand > 0,
            m.from != PLACE ==> old(self).captured < u32::MAX && old(self).progress_ply < u32::MAX,
        ensures
            old(self).moved(*final(self), *m),
    {
        if m.from == PLACE {
            self.grid[m.to as usize] = LEOPARD as i8;
            self.in_hand = self.in_hand - 1;
            self.progress_ply = 0;
        } else {
            let piece = self.grid[m.from as usize];
            self.grid[m.from as usize] = -1;
            self.grid[m.to as usize] = piece;
            let nbs = neighbours(m.from);
            let mut adjacent = false;
            let mut j: usize = 0;
            while j < nbs.len()
                invariant
                    m.from < 10,
                    nbs@.len() == adj(m.from as int).len(),
                    forall|t: int| 0 <= t < nbs@.len() ==> #[trigger] nbs@[t] as int == adj(m.from as int)[t],
                    j <= nbs@.len(),
                    adjacent == exists|t: int| 0 <= t < j && adj(m.from as int)[t] == m.to as int,
                decreases nbs@.len() - j,
            {
                if nbs[j] == m.to {
                    adjacent = true;
                }
                j += 1;
            }
            proof {
                if adjacent {
                    let t = choose|t: int| 0 <= t < nbs@.len() && adj(m.from as int)[t] == m.to as int;
                    assert(adj(m.from as int).contains(m.to as int));
                } else {
                    if adj(m.from as int).contains(m.to as int) {
                        let t = choose|t: int| 0 <= t < adj(m.from as int).len() && adj(m.from as int)[t] == m.to as int;
                    }
                }
            }
            if !adjacent {
                match leap_mid(m.from, m.to) {
                    Some(mid) => {
                        proof {
                            reveal_with_fuel(leap_from, 10);
                        }
                        self.grid[mid as usize] = -1;
                        self.captured = self.captured + 1;
                        self.progress_ply = 0;
                    },
                    None => {},
                }
            } else {
                self.progress_ply = self.progress_ply + 1;
            }
        }
        self.current = 1 - self.current;
    }
}

/// A point shown as `L` (leopard), `T` (tiger) or a space.
pub open spec fn point_char(v: i8) -> char {
    if v == 0 {
        'L'
    } else if v == 1 {
        'T'
    } else {
        ' '
    }
}

/// A placement reads `<to>`, a slide or leap `<from>-<to>`.
pub open spec fn move_text(m: LcMove) -> Seq<char> {
    if m.from == PLACE {
        dec(m.to as nat)
    } else {
        dec(m.from as nat) + seq!['-'] + dec(m.to as nat)
    }
}

/// The texts of `ms`, joined by commas.
pub open spec fn texts(ms: Seq<LcMove>) -> Seq<char>
    decreases ms.len(),
{
    if ms.len() == 0 {
        seq![]
    } else if ms.len() == 1 {
        move_text(ms[0])
    } else {
        texts(ms.drop_last()) + seq![','] + move_text(ms.last())
    }
}

/// `i` is the first `-` of `t`.
pub open spec fn first_dash(t: Seq<char>, i: int) -> bool {
    &&& 0 <= i < t.len()
    &&& t[i] == '-'
    &&& forall|j: int| 0 <= j < i ==> t[j] != '-'
}

/// What a move text names: two point numbers around the first `-` are a slide or
/// leap, a lone point number a placement; points must be on the board.
pub open spec fn parse_move_spec(t: Seq<char>) -> Option<LcMove> {
    if exists|i: int| first_dash(t, i) {
        let i = choose|i: int| first_dash(t, i);
        match (parse_uint(t.subrange(0, i), 255), parse_uint(t.subrange(i + 1, t.len() as int), 255)) {
            (Some(a), Some(b)) => if a < 10 && b < 10 {
                Some(LcMove { from: a as u8, to: b as u8 })
            } else {
                None
            },
            _ => None,
        }
    } else {
        match parse_uint(t, 255) {
            Some(v) => if v < 10 {
                Some(LcMove { from: PLACE, to: v as u8 })
            } else {
                None
            },
            None => None,
        }
    }
}

/// Parse a move text.
pub fn parse_move(mov: &str) -> (r: Option<LcMove>)
    ensures
        r == parse_move_spec(mov@),
{
    let cs = chars_of(mov);
    let n = cs.len();
    let mut i: usize = 0;
    while i < n && cs[i] != '-'
        invariant
            cs@ == mov@,
            n == cs@.len(),
            i <= n,
            forall|j: int| 0 <= j < i ==> cs@[j] != '-',
        decreases n - i,
    {
        i += 1;
    }
    if i == n {
        proof {
            assert forall|k: int| !first_dash(mov@, k) by {
                if first_dash(mov@, k) {
                    assert(mov@[k] == '-');
                }
            }
            assert(cs@.subrange(0, n as int) =~= mov@);
        }
        return match parse_uint_range(&cs, 0, n, 255) {
            Some(v) => if v < 10 {
                Some(LcMove { from: PLACE, to: v as u8 })
            } else {
                None
            },
            None => None,
        };
    }
    proof {
        assert(first_dash(mov@, i as int));
        assert forall|k: int| first_dash(mov@, k) implies k == i by {
            if k < i {
                assert(cs@[k] != '-');
            }
            if k > i {
                assert(mov@[i as int] == '-');
            }
        }
    }
    let a = parse_uint_range(&cs, 0, i, 255);
    let b = parse_uint_range(&cs, i + 1, n, 255);
    match (a, b) {
        (Some(x), Some(y)) => if x < 10 && y < 10 {
            Some(LcMove { from: x as u8, to: y as u8 })
        } else {
            None
        },
        _ => None,
    }
}

/// The text of a move.
pub fn move_string(m: &LcMove) -> (s: String)
    ensures
        s@ == move_text(*m),
{
    let mut s = String::new();
    if m.from == PLACE {
        push_dec(&mut s, m.to as u64);
    } else {
        push_dec(&mut s, m.from as u64);
        push_char(&mut s, '-');
        push_dec(&mut s, m.to as u64);
    }
    proof {
        assert(s@ =~= move_text(*m));
    }
    s
}

/// The drawn edges `a-b` with `a < b` among the neighbours `adj(a)[..j]`.
pub open spec fn edges_of(a: int, j: int) -> Seq<(int, int)>
    decreases j,
{
    if j <= 0 {
        seq![]
    } else {
        edges_of(a, j - 1) + if a < adj(a)[j - 1] { seq![(a, adj(a)[j - 1])] } else { seq![] }
    }
}

/// The drawn edges from the first `k` points, each once.
pub open spec fn edges_upto(k: int) -> Seq<(int, int)>
    decreases k,
{
    if k <= 0 {
        seq![]
    } else {
        edges_upto(k - 1) + edges_of(k - 1, adj(k - 1).len() as int)
    }
}

/// An edge reads `a-b`.
pub open spec fn edge_text(e: (int, int)) -> Seq<char> {
    dec(e.0 as nat) + seq!['-'] + dec(e.1 as nat)
}

/// The texts of `es`, joined by commas.
pub open spec fn edge_texts(es: Seq<(int, int)>) -> Seq<char>
    decreases es.len(),
{
    if es.len() == 0 {
        seq![]
    } else if es.len() == 1 {
        edge_text(es[0])
    } else {
        edge_texts(es.drop_last()) + seq![','] + edge_text(es.last())
    }
}

/// The drawn edges of the board, each once, as `a-b` joined by commas.
pub fn layout_edges_string() -> (s: String)
    ensures
        s@ == edge_texts(edges_upto(10)),
{
    let mut s = String::new();
    let ghost mut es: Seq<(int, int)> = seq![];
    let mut any = false;
    let mut a: usize = 0;
    while a < 10
        invariant
            a <= 10,
            any == (es.len() > 0),
            es == edges_upto(a as int),
            s@ == edge_texts(es),
        decreases 10 - a,
    {
        let nbs = neighbours(a as u8);
        proof {
            lemma_adj_on_board(a as int);
        }
        let ghost base = es;
        let mut j: usize = 0;
        while j < nbs.len()
            invariant
                a < 10,
                nbs@.len() == adj(a as int).len(),
                forall|t: int| 0 <= t < nbs@.len() ==> #[trigger] nbs@[t] as int == adj(a as int)[t],
                j <= nbs@.len(),
                any == (es.len() > 0),
                es == base + edges_of(a as int, j as int),
                s@ == edge_texts(es),
            decreases nbs@.len() - j,
        {
            let b = nbs[j];
            if (a as u8) < b {
                if any {
                    push_char(&mut s, ',');
                }
                any = true;
                push_dec(&mut s, a as u64);
                push_char(&mut s, '-');
                push_dec(&mut s, b as u64);
                proof {
                    let e = (a as int, b as int);
                    let es2 = es.push(e);
                    assert(es2.drop_last() =~= es);
                    assert(es2.last() == e);
                    if es.len() == 0 {
                        assert(s@ =~= edge_texts(es2));
                    } else {
                        assert(s@ =~= edge_texts(es2));
                    }
                    es = es2;
                }
            }
            proof {
                assert(es =~= base + edges_of(a as int, j + 1));
            }
            j += 1;
        }
        a += 1;
    }
    s
}

impl LenChoa {
    /// The board and the counters: ten point characters, `|`, then the leopards in
    /// hand and the leopards taken, joined by a comma.
    pub open spec fn board_text(&self) -> Seq<char> {
        Seq::new(10, |i: int| point_char(self.grid@[i])) + seq!['|'] + dec(self.in_hand as nat) + seq![','] + dec(
            self.captured as nat,
        )
    }

    pub fn board_string(&self) -> (s: String)
        ensures
            s@ == self.board_text(),
    {
        let mut s = String::new();
        let mut i: usize = 0;
        while i < 10
            invariant
                i <= 10,
                s@ == Seq::new(i as nat, |j: int| point_char(self.grid@[j])),
            decreases 10 - i,
        {
            let v = self.grid[i];
            push_char(&mut s, if v == 0 { 'L' } else if v == 1 { 'T' } else { ' ' });
            i += 1;
            assert(s@ =~= Seq::new(i as nat, |j: int| point_char(self.grid@[j])));
        }
        push_char(&mut s, '|');
        push_dec(&mut s, self.in_hand as u64);
        push_char(&mut s, ',');
        push_dec(&mut s, self.captured as u64);
        proof {
            assert(s@ =~= self.board_text());
        }
        s
    }

    /// The winner counted from 1, `Draw`, or empty while the game runs.
    pub fn result_string(&self) -> (s: String)
        requires
            self.current < 2,
        ensures
            s@ == (match self.term_spec() {
                Some(Outcome::Win) => dec((self.current + 1) as nat),
                Some(Outcome::Loss) => dec((1 - self.current + 1) as nat),
                Some(Outcome::Draw) => seq!['D', 'r', 'a', 'w'],
                None => Seq::<char>::empty(),
            }),
    {
        let mut s = String::new();
        match self.term() {
            Some(Outcome::Win) => push_dec(&mut s, self.current as u64 + 1),
            Some(Outcome::Loss) => push_dec(&mut s, (1 - self.current) as u64 + 1),
            Some(Outcome::Draw) => {
                push_str(&mut s, "Draw");
                proof {
                    reveal_strlit("Draw");
                }
            },
            None => {},
        }
        s
    }

    /// The legal moves as texts, joined by commas.
    pub fn legal_moves_string(&self) -> (s: String)
        ensures
            s@ == texts(self.gen_spec()),
    {
        let ms = self.available_moves();
        let mut s = String::new();
        let mut i: usize = 0;
        while i < ms.len()
            invariant
                i <= ms@.len(),
                s@ == texts(ms@.take(i as int)),
            decreases ms@.len() - i,
        {
            if i > 0 {
                push_char(&mut s, ',');
            }
            let t = move_string(&ms[i]);
            push_str(&mut s, t.as_str());
            proof {
                let q = ms@.take(i + 1);
                assert(q.drop_last() =~= ms@.take(i as int));
                assert(q.last() == ms@[i as int]);
                if i == 0 {
                    assert(texts(ms@.take(0)) =~= Seq::<char>::empty());
                }
                assert(s@ =~= texts(q));
            }
            i += 1;
        }
        proof {
            assert(ms@.take(ms@.len() as int) =~= ms@);
        }
        s
    }
}

/// The drawn lines join points both ways: a neighbour's neighbours include the point.
pub proof fn lemma_adjacency_is_symmetric(a: int, i: int)
    requires
        0 <= a < 10,
        0 <= i < adj(a).len(),
    ensures
        adj(adj(a)[i]).contains(a),
{
    if a == 0 && i == 0 {
        assert(adj(1)[0] == 0);
    } else if a == 0 && i == 1 {
        assert(adj(2)[0] == 0);
    } else if a == 0 && i == 2 {
        assert(adj(3)[0] == 0);
    } else if a == 1 && i == 0 {
        assert(adj(0)[0] == 1);
    } else if a == 1 && i == 1 {
        assert(adj(2)[1] == 1);
    } else if a == 1 && i == 2 {
        assert(adj(4)[0] == 1);
    } else if a == 2 && i == 0 {
        assert(adj(0)[1] == 2);
    } else if a == 2 && i == 1 {
        assert(adj(1)[1] == 2);
    } else if a == 2 && i == 2 {
        assert(adj(3)[1] == 2);
    } else if a == 2 && i == 3 {
        assert(adj(5)[0] == 2);
    } else if a == 3 && i == 0 {
        assert(adj(0)[2] == 3);
    } else if a == 3 && i == 1 {
        assert(adj(2)[2] == 3);
    } else if a == 3 && i == 2 {
        assert(adj(6)[0] == 3);
    } else if a == 4 && i == 0 {
        assert(adj(1)[2] == 4);
    } else if a == 4 && i == 1 {
        assert(adj(5)[1] == 4);
    } else if a == 4 && i == 2 {
        assert(adj(7)[0] == 4);
    } else if a == 5 && i == 0 {
        assert(adj(2)[3] == 5);
    } else if a == 5 && i == 1 {
        assert(adj(4)[1] == 5);
    } else if a == 5 && i == 2 {
        assert(adj(6)[1] == 5);
    } else if a == 5 && i == 3 {
        assert(adj(8)[0] == 5);
    } else if a == 6 && i == 0 {
        assert(adj(3)[2] == 6);
    } else if a == 6 && i == 1 {
        assert(adj(5)[2] == 6);
    } else if a == 6 && i == 2 {
        assert(adj(9)[0] == 6);
    } else if a == 7 && i == 0 {
        assert(adj(4)[2] == 7);
    } else if a == 7 && i == 1 {
        assert(adj(8)[1] == 7);
    } else if a == 8 && i == 0 {
        assert(adj(5)[3] == 8);
    } else if a == 8 && i == 1 {
        assert(adj(7)[1] == 8);
    } else if a == 8 && i == 2 {
        assert(adj(9)[1] == 8);
    } else if a == 9 && i == 0 {
        assert(adj(6)[2] == 9);
    } else if a == 9 && i == 1 {
        assert(adj(8)[2] == 9);
    }
}

/// Each leap line runs along two drawn edges, and its end points are not neighbours,
/// so a leap is never mistaken for a slide; the leap between its end points is
/// found, with its middle, either way round.
pub proof fn lemma_leap_lines(k: int)
    requires
        0 <= k < 9,
    ensures
        adj(jump(k).0).contains(jump(k).1),
        adj(jump(k).1).contains(jump(k).2),
        !adj(jump(k).0).contains(jump(k).2),
        !adj(jump(k).2).contains(jump(k).0),
        leap_mid_spec(jump(k).0, jump(k).2) == Some(jump(k).1),
        leap_mid_spec(jump(k).2, jump(k).0) == Some(jump(k).1),
{
    reveal_with_fuel(leap_from, 10);
    if k == 0 {
        assert(adj(0)[0] == 1);
        assert(adj(1)[2] == 4);
        assert(!adj(0).contains(4)) by {
            assert forall|j: int| 0 <= j < adj(0).len() implies adj(0)[j] != 4 by {}
        }
        assert(!adj(4).contains(0)) by {
            assert forall|j: int| 0 <= j < adj(4).len() implies adj(4)[j] != 0 by {}
        }
    } else if k == 1 {
        assert(adj(1)[2] == 4);
        assert(adj(4)[2] == 7);
        assert(!adj(1).contains(7)) by {
            assert forall|j: int| 0 <= j < adj(1).len() implies adj(1)[j] != 7 by {}
        }
        assert(!adj(7).contains(1)) by {
            assert forall|j: int| 0 <= j < adj(7).len() implies adj(7)[j] != 1 by {}
        }
    } else if k == 2 {
        assert(adj(0)[2] == 3);
        assert(adj(3)[2] == 6);
        assert(!adj(0).contains(6)) by {
            assert forall|j: int| 0 <= j < adj(0).len() implies adj(0)[j] != 6 by {}
        }
        assert(!adj(6).contains(0)) by {
            assert forall|j: int| 0 <= j < adj(6).len() implies adj(6)[j] != 0 by {}
        }
    } else if k == 3 {
        assert(adj(3)[2] == 6);
        assert(adj(6)[2] == 9);
        assert(!adj(3).contains(9)) by {
            assert forall|j: int| 0 <= j < adj(3).len() implies adj(3)[j] != 9 by {}
        }
        assert(!adj(9).contains(3)) by {
            assert forall|j: int| 0 <= j < adj(9).len() implies adj(9)[j] != 3 by {}
        }
    } else if k == 4 {
        assert(adj(0)[1] == 2);
        assert(adj(2)[3] == 5);
        assert(!adj(0).contains(5)) by {
            assert forall|j: int| 0 <= j < adj(0).len() implies adj(0)[j] != 5 by {}
        }
        assert(!adj(5).contains(0)) by {
            assert forall|j: int| 0 <= j < adj(5).len() implies adj(5)[j] != 0 by {}
        }
    } else if k == 5 {
        assert(adj(2)[3] == 5);
        assert(adj(5)[3] == 8);
        assert(!adj(2).contains(8)) by {
            assert forall|j: int| 0 <= j < adj(2).len() implies adj(2)[j] != 8 by {}
        }
        assert(!adj(8).contains(2)) by {
            assert forall|j: int| 0 <= j < adj(8).len() implies adj(8)[j] != 2 by {}
        }
    } else if k == 6 {
        assert(adj(1)[1] == 2);
        assert(adj(2)[2] == 3);
        assert(!adj(1).contains(3)) by {
            assert forall|j: int| 0 <= j < adj(1).len() implies adj(1)[j] != 3 by {}
        }
        assert(!adj(3).contains(1)) by {
            assert forall|j: int| 0 <= j < adj(3).len() implies adj(3)[j] != 1 by {}
        }
    } else if k == 7 {
        assert(adj(4)[1] == 5);
        assert(adj(5)[2] == 6);
        assert(!adj(4).contains(6)) by {
            assert forall|j: int| 0 <= j < adj(4).len() implies adj(4)[j] != 6 by {}
        }
        assert(!adj(6).contains(4)) by {
            assert forall|j: int| 0 <= j < adj(6).len() implies adj(6)[j] != 4 by {}
        }
    } else if k == 8 {
        assert(adj(7)[1] == 8);
        assert(adj(8)[2] == 9);
        assert(!adj(7).contains(9)) by {
            assert forall|j: int| 0 <= j < adj(7).len() implies adj(7)[j] != 9 by {}
        }
        assert(!adj(9).contains(7)) by {
            assert forall|j: int| 0 <= j < adj(9).len() implies adj(9)[j] != 7 by {}
        }
    }
}

/// Leopards among the first `k` points.
pub open spec fn leopards(g: Seq<i8>, k: int) -> int
    decreases k,
{
    if k <= 0 {
        0
    } else {
        leopards(g, k - 1) + if g[k - 1] == LEOPARD as i8 { 1int } else { 0 }
    }
}

proof fn lemma_leopards_update(g: Seq<i8>, i: int, v: i8, k: int)
    requires
        0 <= i < g.len(),
        0 <= k <= g.len(),
    ensures
        leopards(g.update(i, v), k) == leopards(g, k) - (if i < k && g[i] == 0 { 1int } else { 0 }) + (if i < k && v
            == 0 { 1int } else { 0 }),
    decreases k,
{
    if k > 0 {
        lemma_leopards_update(g, i, v, k - 1);
    }
}

proof fn lemma_places(g: Seq<i8>, k: int, t: int)
    requires
        0 <= k <= 10,
        0 <= t < places_upto(g, k).len(),
    ensures
        places_upto(g, k)[t].from == PLACE,
        (places_upto(g, k)[t].to as int) < k,
        g[places_upto(g, k)[t].to as int] < 0,
    decreases k,
{
    if t < places_upto(g, k - 1).len() {
        lemma_places(g, k - 1, t);
    }
}

proof fn lemma_steps(g: Seq<i8>, i: int, j: int, t: int)
    requires
        0 <= i < 10,
        0 <= j <= adj(i).len(),
        0 <= t < steps_upto(g, i, j).len(),
    ensures
        steps_upto(g, i, j)[t].from == i,
        adj(i).contains(steps_upto(g, i, j)[t].to as int),
        (steps_upto(g, i, j)[t].to as int) < 10,
        g[steps_upto(g, i, j)[t].to as int] < 0,
    decreases j,
{
    lemma_adj_on_board(i);
    if t < steps_upto(g, i, j - 1).len() {
        lemma_steps(g, i, j - 1, t);
    } else {
        assert(adj(i)[j - 1] == steps_upto(g, i, j)[t].to as int);
    }
}

/// A leap of a tiger on `i`: along some leap line, from one end over a leopard to the
/// empty other end.
pub open spec fn is_leap(g: Seq<i8>, i: int, m: LcMove) -> bool {
    exists|q: int|
        0 <= q < 9 && g[(#[trigger] jump(q)).1] == 0 && g[m.to as int] < 0 && ((jump(q).0 == i
            && m.to as int == jump(q).2) || (jump(q).2 == i && m.to as int == jump(q).0))
}

proof fn lemma_leaps(g: Seq<i8>, i: int, k: int, t: int)
    requires
        0 <= i < 10,
        0 <= k <= 9,
        0 <= t < leaps_upto(g, i, k).len(),
    ensures
        leaps_upto(g, i, k)[t].from == i,
        (leaps_upto(g, i, k)[t].to as int) < 10,
        is_leap(g, i, leaps_upto(g, i, k)[t]),
    decreases k,
{
    let prev = leaps_upto(g, i, k - 1);
    if t < prev.len() {
        lemma_leaps(g, i, k - 1, t);
    } else {
        lemma_jump_on_board(k - 1);
        let m = leaps_upto(g, i, k)[t];
        assert(g[jump(k - 1).1] == 0);
    }
}

proof fn lemma_moves(g: Seq<i8>, piece: i8, k: int, t: int)
    requires
        0 <= k <= 10,
        0 <= t < moves_upto(g, piece, k).len(),
    ensures
        (moves_upto(g, piece, k)[t].from as int) < k,
        g[moves_upto(g, piece, k)[t].from as int] == piece,
        (moves_upto(g, piece, k)[t].to as int) < 10,
        (adj(moves_upto(g, piece, k)[t].from as int).contains(moves_upto(g, piece, k)[t].to as int) && g[moves_upto(
            g,
            piece,
            k,
        )[t].to as int] < 0) || (piece == TIGER as i8 && is_leap(
            g,
            moves_upto(g, piece, k)[t].from as int,
            moves_upto(g, piece, k)[t],
        )),
    decreases k,
{
    let prev = moves_upto(g, piece, k - 1);
    if t < prev.len() {
        lemma_moves(g, piece, k - 1, t);
    } else {
        let i = k - 1;
        let st = steps_upto(g, i, adj(i).len() as int);
        let u = t - prev.len();
        if u < st.len() {
            lemma_steps(g, i, adj(i).len() as int, u);
        } else {
            lemma_leaps(g, i, 9, u - st.len());
        }
    }
}

impl LenChoa {
    /// Every leopard is on the board, in hand, or taken.
    pub open spec fn accounted(&self) -> bool {
        leopards(self.grid@, 10) + self.in_hand + self.captured == LEOPARDS
    }
}

/// No leopard is made or lost without being counted: a placement moves one from the
/// hand to the board, a slide keeps them, and a leap moves the leopard leapt over
/// from the board to the captured.
pub proof fn lemma_leopards_accounted(g: LenChoa, m: LcMove, next: LenChoa)
    requires
        g.current < 2,
        g.accounted(),
        g.gen_spec().contains(m),
        g.moved(next, m),
    ensures
        next.accounted(),
{
    let b = g.grid@;
    let j = choose|j: int| 0 <= j < g.gen_spec().len() && g.gen_spec()[j] == m;
    if g.current == LEOPARD && g.in_hand > 0 {
        lemma_places(b, 10, j);
        lemma_leopards_update(b, m.to as int, 0, 10);
    } else {
        let piece = if g.current == LEOPARD { LEOPARD as i8 } else { TIGER as i8 };
        lemma_moves(b, piece, 10, j);
        let f = m.from as int;
        let to = m.to as int;
        let b0 = b.update(f, -1i8);
        let b1 = b0.update(to, b[f]);
        lemma_leopards_update(b, f, -1i8, 10);
        if adj(f).contains(to) && b[to] < 0 {
            lemma_leopards_update(b0, to, b[f], 10);
        } else {
            let q = choose|q: int|
                0 <= q < 9 && b[(#[trigger] jump(q)).1] == 0 && b[to] < 0 && ((jump(q).0 == f
                    && to == jump(q).2) || (jump(q).2 == f && to == jump(q).0));
            lemma_leap_lines(q);
            lemma_jump_on_board(q);
            lemma_leopards_update(b0, to, b[f], 10);
            lemma_leopards_update(b1, jump(q).1, -1i8, 10);
        }
    }
}

impl LenChoa {
    /// Play the move that `mov` names if it is legal; false, leaving the game
    /// unchanged, otherwise.
    pub fn apply_text(&mut self, mov: &str) -> (ok: bool)
        requires
            old(self).current < 2,
            old(self).accounted(),
            old(self).captured < u32::MAX,
            old(self).progress_ply < u32::MAX,
        ensures
            final(self).current < 2,
            final(self).accounted(),
            ok == (parse_move_spec(mov@) matches Some(m) && old(self).gen_spec().contains(m)),
            !ok ==> *final(self) == *old(self),
            ok ==> old(self).moved(*final(self), parse_move_spec(mov@)->0),
    {
        let m = match parse_move(mov) {
            Some(m) => m,
            None => {
                return false;
            },
        };
        let moves = self.available_moves();
        let mut found = false;
        let mut i: usize = 0;
        while i < moves.len()
            invariant
                i <= moves@.len(),
                found == exists|j: int| 0 <= j < i && moves@[j] == m,
            decreases moves@.len() - i,
        {
            if moves[i] == m {
                found = true;
            }
            i += 1;
        }
        if !found {
            return false;
        }
        let ghost g0 = *self;
        proof {
            let j = choose|j: int| 0 <= j < moves@.len() && moves@[j] == m;
            if g0.current == LEOPARD && g0.in_hand > 0 {
                lemma_places(g0.grid@, 10, j);
            } else {
                let piece = if g0.current == LEOPARD { LEOPARD as i8 } else { TIGER as i8 };
                lemma_moves(g0.grid@, piece, 10, j);
                assert(m.from != PLACE);
            }
        }
        self.make_move(&m);
        proof {
            lemma_leopards_accounted(g0, m, *self);
        }
        true
    }
}

} // verus!
