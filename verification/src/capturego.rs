//! First Capture (capture-Go). Stones are placed as in Go; a group with no liberties
//! is captured. The first player to capture any enemy group wins. Suicide is illegal.
use vstd::prelude::*;
use crate::gridlib::{idx, center_eval, center_total, shaped};
use crate::outcome::Outcome;
use crate::text::{push_char, push_dec, push_str, push_all, push_joined, join_nums, u16s, dec, parse_uint, chars_of, parse_uint_range};
use std::collections::HashSet;

verus! {

/// The orthogonal neighbours of `cell`, in the order up, down, left, right.
pub open spec fn orth_spec(cols: int, rows: int, cell: int) -> Seq<int> {
    let (r, c) = (cell / cols, cell % cols);
    (if r > 0 { seq![(r - 1) * cols + c] } else { seq![] }) + (if r + 1 < rows { seq![(r + 1) * cols + c] } else { seq![] }) + (
    if c > 0 {
        seq![r * cols + (c - 1)]
    } else {
        seq![]
    }) + (if c + 1 < cols { seq![r * cols + (c + 1)] } else { seq![] })
}

/// `a` and `n` are orthogonal neighbours.
pub open spec fn adj(cols: int, rows: int, a: int, n: int) -> bool {
    orth_spec(cols, rows, a).contains(n)
}

/// `p` walks between orthogonal neighbours through stones of one colour.
pub open spec fn is_path(b: Seq<i8>, cols: int, rows: int, p: Seq<int>) -> bool {
    &&& p.len() >= 1
    &&& forall|i: int| 0 <= i < p.len() ==> 0 <= #[trigger] p[i] < b.len() && b[p[i]] == b[p[0]]
    &&& forall|i: int| 0 <= i < p.len() - 1 ==> adj(cols, rows, #[trigger] p[i], p[i + 1])
}

/// `c` belongs to the group of the stone at `s`: a walk of its colour joins them.
pub open spec fn in_group(b: Seq<i8>, cols: int, rows: int, s: int, c: int) -> bool {
    exists|p: Seq<int>| #[trigger] is_path(b, cols, rows, p) && p[0] == s && p[p.len() - 1] == c
}

/// The group of the stone at `s` touches an empty point.
pub open spec fn has_liberty(b: Seq<i8>, cols: int, rows: int, s: int) -> bool {
    exists|c: int, n: int| #[trigger] in_group(b, cols, rows, s, c) && #[trigger] adj(cols, rows, c, n) && b[n] == -1
}

/// Number of `false` entries among the first `k`.
pub open spec fn unseen_upto(seen: Seq<bool>, k: int) -> int
    decreases k,
{
    if k <= 0 {
        0
    } else {
        unseen_upto(seen, k - 1) + if seen[k - 1] { 0int } else { 1int }
    }
}

proof fn lemma_unseen_mark(seen: Seq<bool>, j: int, k: int)
    requires
        0 <= j < seen.len(),
        0 <= k <= seen.len(),
        !seen[j],
    ensures
        unseen_upto(seen.update(j, true), k) == unseen_upto(seen, k) - if j < k { 1int } else { 0int },
        unseen_upto(seen, k) >= 0,
    decreases k,
{
    if k > 0 {
        lemma_unseen_mark(seen, j, k - 1);
    }
}

proof fn lemma_unseen_nonneg(seen: Seq<bool>, k: int)
    ensures
        unseen_upto(seen, k) >= 0,
    decreases k,
{
    if k > 0 {
        lemma_unseen_nonneg(seen, k - 1);
    }
}

/// Row-major arithmetic of a cell and its neighbours.
pub proof fn lemma_cell_arith(cols: int, rows: int, cell: int)
    requires
        0 <= cell < cols * rows,
        cols >= 0,
        rows >= 0,
    ensures
        cell % cols + 1 < cols ==> cell + 1 < cols * rows,
        cols >= 1,
        0 <= cell / cols < rows,
        0 <= cell % cols < cols,
        (cell / cols) * cols + cell % cols == cell,
        (cell / cols - 1) * cols + cell % cols == cell - cols,
        (cell / cols + 1) * cols + cell % cols == cell + cols,
        cell / cols + 1 < rows ==> cell + cols < cols * rows,
{
    assert(cols >= 1) by (nonlinear_arith)
        requires
            0 <= cell < cols * rows,
            cols >= 0,
            rows >= 0,
    ;
    let (r, c) = (cell / cols, cell % cols);
    assert(r * cols + c == cell) by (nonlinear_arith)
        requires
            cols >= 1,
            r == cell / cols,
            c == cell % cols,
    ;
    assert(0 <= r < rows) by (nonlinear_arith)
        requires
            0 <= cell < cols * rows,
            cols >= 1,
            r * cols + c == cell,
            0 <= c < cols,
    ;
    assert((r + 1) * cols + c == cell + cols) by (nonlinear_arith)
        requires
            r * cols + c == cell,
    ;
    assert((r - 1) * cols + c == cell - cols) by (nonlinear_arith)
        requires
            r * cols + c == cell,
    ;
    assert(r + 1 < rows ==> cell + cols < cols * rows) by (nonlinear_arith)
        requires
            r * cols + c == cell,
            0 <= c < cols,
    ;
    assert((r + 1) * cols <= cols * rows) by (nonlinear_arith)
        requires
            0 <= r < rows,
            cols >= 1,
    ;
    assert((r + 1) * cols == r * cols + cols) by (nonlinear_arith);
}

/// Every neighbour is on the board.
pub proof fn lemma_orth_in_range(cols: int, rows: int, cell: int)
    requires
        0 <= cell < cols * rows,
        cols >= 0,
        rows >= 0,
    ensures
        forall|j: int| 0 <= j < orth_spec(cols, rows, cell).len() ==> 0 <= #[trigger] orth_spec(cols, rows, cell)[j] < cols * rows,
{
    lemma_cell_arith(cols, rows, cell);
    let (r, c) = (cell / cols, cell % cols);
    let s1: Seq<int> = if r > 0 { seq![(r - 1) * cols + c] } else { seq![] };
    let s2: Seq<int> = if r + 1 < rows { seq![(r + 1) * cols + c] } else { seq![] };
    let s3: Seq<int> = if c > 0 { seq![r * cols + (c - 1)] } else { seq![] };
    let s4: Seq<int> = if c + 1 < cols { seq![r * cols + (c + 1)] } else { seq![] };
    assert(orth_spec(cols, rows, cell) == s1 + s2 + s3 + s4);
    assert forall|j: int| 0 <= j < (s1 + s2 + s3 + s4).len() implies 0 <= #[trigger] (s1 + s2 + s3 + s4)[j] < cols * rows by {
        if j < s1.len() {
        } else if j < s1.len() + s2.len() {
        } else if j < s1.len() + s2.len() + s3.len() {
        } else {
        }
    }
}

#[derive(Clone, Debug)]
pub struct CaptureGo {
    /// -1 empty, 0 first player's stone, 1 second player's stone.
    pub board: Vec<i8>,
    pub cols: usize,
    pub rows: usize,
    pub current: u8,
    /// The player who made the first capture: the game is over.
    pub last_capture: Option<u8>,
}

impl CaptureGo {
    pub open spec fn wf(&self) -> bool {
        &&& self.cols <= 256
        &&& self.rows <= 256
        &&& self.board@.len() == self.cols * self.rows
        &&& self.board@.len() <= 65536
        &&& self.current <= 1
        &&& forall|i: int| 0 <= i < self.board@.len() ==> -1 <= #[trigger] self.board@[i] <= 1
        &&& self.last_capture matches Some(c) ==> c <= 1
    }

    pub fn new(cols: usize, rows: usize) -> (g: Self)
        requires
            cols <= 256,
            rows <= 256,
        ensures
            g.wf(),
            g.cols == cols,
            g.rows == rows,
            forall|i: int| 0 <= i < cols * rows ==> #[trigger] g.board@[i] == -1,
            g.current == 0,
            g.last_capture is None,
    {
        assert(cols * rows <= 256 * 256) by (nonlinear_arith)
            requires
                cols <= 256,
                rows <= 256,
        ;
        let n = cols * rows;
        let mut board: Vec<i8> = Vec::new();
        let mut i: usize = 0;
        while i < n
            invariant
                i <= n,
                board@.len() == i,
                forall|j: int| 0 <= j < i ==> #[trigger] board@[j] == -1,
            decreases n - i,
        {
            board.push(-1);
            i += 1;
        }
        CaptureGo { board, cols, rows, current: 0, last_capture: None }
    }

    /// The orthogonal neighbours of `cell`: up, down, left, right.
    pub fn orth(&self, cell: usize) -> (v: Vec<usize>)
        requires
            self.wf(),
            cell < self.board@.len(),
        ensures
            v@.len() == orth_spec(self.cols as int, self.rows as int, cell as int).len(),
            forall|j: int| 0 <= j < v@.len() ==> #[trigger] v@[j] as int == orth_spec(self.cols as int, self.rows as int, cell as int)[j],
            forall|j: int| 0 <= j < v@.len() ==> #[trigger] v@[j] < self.board@.len(),
    {
        let ghost (ci, ri) = (self.cols as int, self.rows as int);
        proof {
            lemma_orth_in_range(ci, ri, cell as int);
            lemma_cell_arith(ci, ri, cell as int);
        }
        let n = self.board.len();
        let r = cell / self.cols;
        let c = cell % self.cols;
        let mut v: Vec<usize> = Vec::new();
        if r > 0 {
            v.push(idx(r - 1, c, self.cols));
        }
        if r + 1 < self.rows {
            v.push(idx(r + 1, c, self.cols));
        }
        if c > 0 {
            v.push(idx(r, c - 1, self.cols));
        }
        if c + 1 < self.cols {
            v.push(idx(r, c + 1, self.cols));
        }
        assert forall|j: int| 0 <= j < v@.len() implies #[trigger] v@[j] as int == orth_spec(ci, ri, cell as int)[j] by {}
        v
    }
}

/// A neighbour of the same colour as a group stone is in the group.
proof fn lemma_group_step(b: Seq<i8>, cols: int, rows: int, s: int, m: int, c: int)
    requires
        0 <= c < b.len(),
        in_group(b, cols, rows, s, m),
        adj(cols, rows, m, c),
        b[c] == b[s],
    ensures
        in_group(b, cols, rows, s, c),
{
    let p = choose|p: Seq<int>| #[trigger] is_path(b, cols, rows, p) && p[0] == s && p[p.len() - 1] == m;
    let q = p.push(c);
    assert(q[q.len() - 2] == m);
    assert(is_path(b, cols, rows, q));
}

impl CaptureGo {
    /// Flood the same-colour group containing `start` on `board`: its stones, each
    /// once, and whether it has a liberty.
    pub fn group(&self, board: &Vec<i8>, start: usize) -> (r: (Vec<usize>, bool))
        requires
            self.wf(),
            board@.len() == self.board@.len(),
            start < board@.len(),
            board@[start as int] != -1,
        ensures
            forall|j: int| 0 <= j < r.0@.len() ==> (#[trigger] r.0@[j]) < board@.len() && in_group(board@, self.cols as int, self.rows as int, start as int, r.0@[j] as int),
            forall|c: int| 0 <= c < board@.len() && #[trigger] in_group(board@, self.cols as int, self.rows as int, start as int, c) ==> r.0@.contains(c as usize),
            r.0@.no_duplicates(),
            r.1 == has_liberty(board@, self.cols as int, self.rows as int, start as int),
    {
        let ghost b = board@;
        let ghost (ci, ri) = (self.cols as int, self.rows as int);
        let n = board.len();
        let color = board[start];
        let mut stack: Vec<usize> = Vec::new();
        stack.push(start);
        let mut seen: Vec<bool> = Vec::new();
        let mut i: usize = 0;
        while i < n
            invariant
                i <= n,
                seen@.len() == i,
                forall|j: int| 0 <= j < i ==> !#[trigger] seen@[j],
            decreases n - i,
        {
            seen.push(false);
            i += 1;
        }
        seen.set(start, true);
        let mut group: Vec<usize> = Vec::new();
        let mut lib = false;
        proof {
            let p0 = seq![start as int];
            assert(is_path(b, ci, ri, p0));
            assert(in_group(b, ci, ri, start as int, start as int));
            assert(stack@[0] == start);
            lemma_unseen_nonneg(seen@, n as int);
        }
        while stack.len() > 0
            invariant
                self.wf(),
                b == board@,
                n == b.len(),
                b.len() == ci * ri,
                ci == self.cols,
                ri == self.rows,
                start < n,
                color == b[start as int],
                color != -1,
                seen@.len() == n,
                seen@[start as int],
                forall|c: int| 0 <= c < n && #[trigger] seen@[c] ==> in_group(b, ci, ri, start as int, c) && b[c] == color,
                forall|c: int| 0 <= c < n ==> (#[trigger] seen@[c] <==> (group@.contains(c as usize) || stack@.contains(c as usize))),
                forall|j: int| 0 <= j < group@.len() ==> (#[trigger] group@[j]) < n,
                forall|j: int| 0 <= j < stack@.len() ==> (#[trigger] stack@[j]) < n,
                group@.no_duplicates(),
                stack@.no_duplicates(),
                forall|x: usize| #[trigger] group@.contains(x) ==> !stack@.contains(x),
                forall|j: int, m: int|
                    0 <= j < group@.len() && 0 <= m < n && #[trigger] adj(ci, ri, group@[j] as int, m) && b[m] == color ==> seen@[m],
                lib == exists|j: int, m: int| 0 <= j < group@.len() && #[trigger] adj(ci, ri, group@[j] as int, m) && b[m] == -1,
            decreases 2 * unseen_upto(seen@, n as int) + stack@.len(),
        {
            let ghost m0 = 2 * unseen_upto(seen@, n as int) + stack@.len();
            let ghost st0 = stack@;
            let ghost g0 = group@;
            let ghost lib0 = lib;
            let cell = stack.pop().unwrap();
            proof {
                assert(st0 == stack@.push(cell));
                assert(st0[st0.len() - 1] == cell);
                assert(st0.contains(cell));
                assert forall|x: usize| stack@.contains(x) implies st0.contains(x) && x != cell by {
                    let j = choose|j: int| 0 <= j < stack@.len() && stack@[j] == x;
                    assert(st0[j] == x);
                    assert(j != st0.len() - 1);
                    assert(st0[j] != st0[st0.len() - 1]);
                }
            }
            group.push(cell);
            proof {
                assert forall|x: usize| #[trigger] group@.contains(x) implies !stack@.contains(x) by {
                    if x != cell {
                        let j = choose|j: int| 0 <= j < group@.len() && group@[j] == x;
                        assert(g0[j] == x);
                        assert(g0.contains(x));
                        assert(!st0.contains(x));
                        if stack@.contains(x) {
                            let q = choose|q: int| 0 <= q < stack@.len() && stack@[q] == x;
                            assert(st0[q] == x);
                            assert(st0.contains(x));
                        }
                    } else {
                        if stack@.contains(x) {
                            let q = choose|q: int| 0 <= q < stack@.len() && stack@[q] == x;
                            assert(st0[q] == x);
                            assert(q != st0.len() - 1);
                            assert(st0[q] == st0[st0.len() - 1]);
                        }
                    }
                }
                assert(group@.no_duplicates()) by {
                    assert forall|a: int, c: int| 0 <= a < c < group@.len() implies group@[a] != group@[c] by {
                        if c == group@.len() - 1 {
                            assert(g0[a] == group@[a]);
                            assert(g0.contains(group@[a]));
                        }
                    }
                }
                assert forall|c: int| 0 <= c < n implies (#[trigger] seen@[c] <==> (group@.contains(c as usize) || stack@.contains(c as usize))) by {
                    if g0.contains(c as usize) {
                        let j = choose|j: int| 0 <= j < g0.len() && g0[j] == c as usize;
                        assert(group@[j] == c as usize);
                    }
                    if st0.contains(c as usize) && c as usize != cell {
                        let j = choose|j: int| 0 <= j < st0.len() && st0[j] == c as usize;
                        assert(j != st0.len() - 1);
                        assert(stack@[j] == c as usize);
                    }
                    if group@.contains(c as usize) && c as usize != cell {
                        let j = choose|j: int| 0 <= j < group@.len() && group@[j] == c as usize;
                        assert(g0[j] == c as usize);
                    }
                    if c as usize == cell {
                        assert(group@[group@.len() - 1] == cell);
                    }
                }
            }
            let nbs = self.orth(cell);
            let mut k: usize = 0;
            while k < nbs.len()
                invariant
                    self.wf(),
                    b == board@,
                    n == b.len(),
                    b.len() == ci * ri,
                    ci == self.cols,
                    ri == self.rows,
                    start < n,
                    color == b[start as int],
                    color != -1,
                    cell < n,
                    group@ == g0.push(cell),
                    seen@[cell as int],
                    nbs@.len() == orth_spec(ci, ri, cell as int).len(),
                    forall|j: int| 0 <= j < nbs@.len() ==> #[trigger] nbs@[j] as int == orth_spec(ci, ri, cell as int)[j],
                    forall|j: int| 0 <= j < nbs@.len() ==> #[trigger] nbs@[j] < n,
                    k <= nbs@.len(),
                    seen@.len() == n,
                    seen@[start as int],
                    forall|c: int| 0 <= c < n && #[trigger] seen@[c] ==> in_group(b, ci, ri, start as int, c) && b[c] == color,
                    forall|c: int| 0 <= c < n ==> (#[trigger] seen@[c] <==> (group@.contains(c as usize) || stack@.contains(c as usize))),
                    forall|j: int| 0 <= j < group@.len() ==> (#[trigger] group@[j]) < n,
                    forall|j: int| 0 <= j < stack@.len() ==> (#[trigger] stack@[j]) < n,
                    group@.no_duplicates(),
                    stack@.no_duplicates(),
                    forall|x: usize| #[trigger] group@.contains(x) ==> !stack@.contains(x),
                    forall|j: int, m: int|
                        0 <= j < g0.len() && 0 <= m < n && #[trigger] adj(ci, ri, g0[j] as int, m) && b[m] == color ==> seen@[m],
                    forall|t: int| 0 <= t < k && b[#[trigger] nbs@[t] as int] == color ==> seen@[nbs@[t] as int],
                    lib == (lib0 || exists|t: int| 0 <= t < k && b[#[trigger] nbs@[t] as int] == -1),
                    lib0 == exists|j: int, m: int| 0 <= j < g0.len() && #[trigger] adj(ci, ri, g0[j] as int, m) && b[m] == -1,
                    2 * unseen_upto(seen@, n as int) + stack@.len() < m0,
                decreases nbs@.len() - k,
            {
                let nb = nbs[k];
                if board[nb] == -1 {
                    lib = true;
                } else if board[nb] == color && !seen[nb] {
                    proof {
                        assert(orth_spec(ci, ri, cell as int)[k as int] == nb as int);
                        assert(adj(ci, ri, cell as int, nb as int));
                        lemma_group_step(b, ci, ri, start as int, cell as int, nb as int);
                        lemma_unseen_mark(seen@, nb as int, n as int);
                        assert(!stack@.contains(nb));
                        assert(!group@.contains(nb));
                    }
                    let ghost sn0 = seen@;
                    let ghost sk0 = stack@;
                    seen.set(nb, true);
                    stack.push(nb);
                    proof {
                        assert forall|j: int, m: int|
                            0 <= j < g0.len() && 0 <= m < n && #[trigger] adj(ci, ri, g0[j] as int, m) && b[m] == color implies seen@[m] by {
                            assert(sn0[m] ==> seen@[m]);
                        }
                        assert forall|t: int| 0 <= t < k + 1 && b[#[trigger] nbs@[t] as int] == color implies seen@[nbs@[t] as int] by {
                            if t < k {
                                assert(sn0[nbs@[t] as int]);
                            }
                        }
                        assert forall|c: int| 0 <= c < n implies (#[trigger] seen@[c] <==> (group@.contains(c as usize) || stack@.contains(c as usize))) by {
                            if c == nb as int {
                                assert(stack@[stack@.len() - 1] == nb);
                            } else {
                                assert(seen@[c] == sn0[c]);
                                if sk0.contains(c as usize) {
                                    let j = choose|j: int| 0 <= j < sk0.len() && sk0[j] == c as usize;
                                    assert(stack@[j] == c as usize);
                                }
                                if stack@.contains(c as usize) {
                                    let j = choose|j: int| 0 <= j < stack@.len() && stack@[j] == c as usize;
                                    assert(j != stack@.len() - 1);
                                    assert(sk0[j] == c as usize);
                                }
                            }
                        }
                        assert forall|x: usize| #[trigger] group@.contains(x) implies !stack@.contains(x) by {
                            if stack@.contains(x) {
                                let j = choose|j: int| 0 <= j < stack@.len() && stack@[j] == x;
                                if j < sk0.len() {
                                    assert(sk0[j] == x);
                                }
                            }
                        }
                        assert(stack@.no_duplicates()) by {
                            assert forall|a: int, c: int| 0 <= a < c < stack@.len() implies stack@[a] != stack@[c] by {
                                if c == stack@.len() - 1 {
                                    assert(sk0[a] == stack@[a]);
                                    assert(sk0.contains(stack@[a]));
                                }
                            }
                        }
                    }
                }
                k += 1;
            }
            proof {
                lemma_unseen_nonneg(seen@, n as int);
                assert forall|j: int, m: int|
                    0 <= j < group@.len() && 0 <= m < n && #[trigger] adj(ci, ri, group@[j] as int, m) && b[m] == color implies seen@[m] by {
                    if j < g0.len() {
                        assert(group@[j] == g0[j]);
                    } else {
                        let t = choose|t: int| 0 <= t < orth_spec(ci, ri, cell as int).len() && orth_spec(ci, ri, cell as int)[t] == m;
                        assert(nbs@[t] as int == m);
                    }
                }
                let lib_now = exists|j: int, m: int| 0 <= j < group@.len() && #[trigger] adj(ci, ri, group@[j] as int, m) && b[m] == -1;
                if lib {
                    if lib0 {
                        let (j, m) = choose|j: int, m: int| 0 <= j < g0.len() && #[trigger] adj(ci, ri, g0[j] as int, m) && b[m] == -1;
                        assert(group@[j] == g0[j]);
                        assert(adj(ci, ri, group@[j] as int, m));
                    } else {
                        let t = choose|t: int| 0 <= t < k && b[#[trigger] nbs@[t] as int] == -1;
                        let j = group@.len() - 1;
                        assert(orth_spec(ci, ri, cell as int)[t] == nbs@[t] as int);
                        assert(adj(ci, ri, group@[j] as int, nbs@[t] as int));
                    }
                    assert(lib_now);
                } else {
                    if lib_now {
                        let (j, m) = choose|j: int, m: int| 0 <= j < group@.len() && #[trigger] adj(ci, ri, group@[j] as int, m) && b[m] == -1;
                        if j < g0.len() {
                            assert(g0[j] == group@[j]);
                            assert(adj(ci, ri, g0[j] as int, m));
                        } else {
                            let t = choose|t: int| 0 <= t < orth_spec(ci, ri, cell as int).len() && orth_spec(ci, ri, cell as int)[t] == m;
                            assert(nbs@[t] as int == m);
                        }
                    }
                }
            }
        }
        proof {
            // Every stone linked to the start has been seen, hence is in the group.
            assert forall|c: int| 0 <= c < n && #[trigger] in_group(b, ci, ri, start as int, c) implies group@.contains(c as usize) by {
                let p = choose|p: Seq<int>| #[trigger] is_path(b, ci, ri, p) && p[0] == start as int && p[p.len() - 1] == c;
                lemma_path_seen(b, ci, ri, p, p.len() - 1, seen@, group@);
            }
            assert forall|j: int| 0 <= j < group@.len() implies (#[trigger] group@[j]) < n && in_group(b, ci, ri, start as int, group@[j] as int) by {
                assert(group@.contains(group@[j]));
                assert(seen@[group@[j] as int]);
            }
            if lib {
                let (j, m) = choose|j: int, m: int| 0 <= j < group@.len() && #[trigger] adj(ci, ri, group@[j] as int, m) && b[m] == -1;
                assert(seen@[group@[j] as int]);
                assert(in_group(b, ci, ri, start as int, group@[j] as int));
            } else {
                if has_liberty(b, ci, ri, start as int) {
                    let (c, m) = choose|c: int, m: int| #[trigger] in_group(b, ci, ri, start as int, c) && #[trigger] adj(ci, ri, c, m) && b[m] == -1;
                    lemma_group_in_range(b, ci, ri, start as int, c);
                    let p = choose|p: Seq<int>| #[trigger] is_path(b, ci, ri, p) && p[0] == start as int && p[p.len() - 1] == c;
                    lemma_path_seen(b, ci, ri, p, p.len() - 1, seen@, group@);
                    assert(group@.contains(c as usize));
                    let j = choose|j: int| 0 <= j < group@.len() && group@[j] == c as usize;
                    assert(adj(ci, ri, group@[j] as int, m));
                }
            }
        }
        (group, lib)
    }
}

/// A group stone lies on the board.
proof fn lemma_group_in_range(b: Seq<i8>, cols: int, rows: int, s: int, c: int)
    requires
        in_group(b, cols, rows, s, c),
    ensures
        0 <= c < b.len(),
        b[c] == b[s],
{
    let p = choose|p: Seq<int>| #[trigger] is_path(b, cols, rows, p) && p[0] == s && p[p.len() - 1] == c;
    assert(0 <= p[p.len() - 1] < b.len());
}

/// With the flood finished (the group closed under same-colour neighbours), every
/// stone of a walk from the start was seen.
proof fn lemma_path_seen(b: Seq<i8>, cols: int, rows: int, p: Seq<int>, k: int, seen: Seq<bool>, group: Seq<usize>)
    requires
        is_path(b, cols, rows, p),
        0 <= p[0] < b.len(),
        seen.len() == b.len(),
        seen[p[0]],
        forall|x: int| 0 <= x < b.len() ==> (#[trigger] seen[x] <==> group.contains(x as usize)),
        forall|j: int, m: int| 0 <= j < group.len() && 0 <= m < b.len() && #[trigger] adj(cols, rows, group[j] as int, m) && b[m] == b[p[0]] ==> seen[m],
        0 <= k < p.len(),
        b.len() <= usize::MAX,
    ensures
        seen[p[k]],
    decreases k,
{
    if k > 0 {
        lemma_path_seen(b, cols, rows, p, k - 1, seen, group);
        assert(adj(cols, rows, p[k - 1], p[k]));
        assert(group.contains(p[k - 1] as usize));
        let j = choose|j: int| 0 <= j < group.len() && group[j] == p[k - 1] as usize;
        assert(group[j] as int == p[k - 1]);
        assert(adj(cols, rows, group[j] as int, p[k]));
    }
}

/// `b` with the group of the stone at `s` taken off.
pub open spec fn remove_group(b: Seq<i8>, cols: int, rows: int, s: int) -> Seq<i8> {
    Seq::new(b.len(), |c: int| if in_group(b, cols, rows, s, c) { -1i8 } else { b[c] })
}

/// The board after checking the first `k` neighbours `nbs` for enemy groups left
/// without a liberty, each taken off in turn, and whether any was.
pub open spec fn captures_upto(b: Seq<i8>, cols: int, rows: int, nbs: Seq<int>, enemy: i8, k: int) -> (Seq<i8>, bool)
    decreases k,
{
    if k <= 0 {
        (b, false)
    } else {
        let (b1, c1) = captures_upto(b, cols, rows, nbs, enemy, k - 1);
        let nb = nbs[k - 1];
        if b1[nb] == enemy && !has_liberty(b1, cols, rows, nb) {
            (remove_group(b1, cols, rows, nb), true)
        } else {
            (b1, c1)
        }
    }
}

impl CaptureGo {
    /// Placing at `cell` for the player to move: the resulting board (enemy groups left
    /// without a liberty taken off), whether anything was captured, and whether the
    /// placement is suicide (its own group has no liberty and nothing was captured).
    pub open spec fn simulate_spec(&self, cell: int) -> (Seq<i8>, bool, bool) {
        let b0 = self.board@.update(cell, self.current as i8);
        let nbs = orth_spec(self.cols as int, self.rows as int, cell);
        let (b1, cap) = captures_upto(b0, self.cols as int, self.rows as int, nbs, (1 - self.current) as i8, nbs.len() as int);
        (b1, cap, !has_liberty(b1, self.cols as int, self.rows as int, cell) && !cap)
    }

    /// Take off the group of the stone at `start` on `b`.
    fn remove_group_exec(&self, b: &mut Vec<i8>, grp: &Vec<usize>, Ghost(start): Ghost<int>)
        requires
            forall|j: int| 0 <= j < grp@.len() ==> (#[trigger] grp@[j]) < old(b)@.len() && in_group(old(b)@, self.cols as int, self.rows as int, start, grp@[j] as int),
            forall|c: int| 0 <= c < old(b)@.len() && #[trigger] in_group(old(b)@, self.cols as int, self.rows as int, start, c) ==> grp@.contains(c as usize),
        ensures
            final(b)@ == remove_group(old(b)@, self.cols as int, self.rows as int, start),
    {
        let ghost b0 = b@;
        let blen = b.len();
        let mut t: usize = 0;
        while t < grp.len()
            invariant
                b@.len() == b0.len(),
                b0.len() == blen,
                t <= grp@.len(),
                forall|j: int| 0 <= j < grp@.len() ==> (#[trigger] grp@[j]) < b0.len(),
                forall|c: int| 0 <= c < b0.len() ==> #[trigger] b@[c] == if grp@.take(t as int).contains(c as usize) { -1i8 } else { b0[c] },
            decreases grp@.len() - t,
        {
            let g = grp[t];
            b.set(g, -1);
            proof {
                assert forall|c: int| 0 <= c < b0.len() implies #[trigger] b@[c] == if grp@.take(t + 1).contains(c as usize) { -1i8 } else { b0[c] } by {
                    assert(grp@.take(t + 1) =~= grp@.take(t as int).push(g));
                    if grp@.take(t as int).contains(c as usize) {
                        let j = choose|j: int| 0 <= j < t && grp@.take(t as int)[j] == c as usize;
                        assert(grp@.take(t + 1)[j] == c as usize);
                    }
                    if c == g as int {
                        assert(grp@.take(t + 1)[t as int] == g);
                    }
                }
            }
            t += 1;
        }
        proof {
            assert(grp@.take(grp@.len() as int) =~= grp@);
            assert forall|c: int| 0 <= c < b0.len() implies #[trigger] b@[c] == remove_group(b0, self.cols as int, self.rows as int, start)[c] by {
                if in_group(b0, self.cols as int, self.rows as int, start, c) {
                    assert(grp@.contains(c as usize));
                } else if grp@.contains(c as usize) {
                    let j = choose|j: int| 0 <= j < grp@.len() && grp@[j] == c as usize;
                    assert(in_group(b0, self.cols as int, self.rows as int, start, grp@[j] as int));
                }
            }
            assert(b@ =~= remove_group(b0, self.cols as int, self.rows as int, start));
        }
    }

    /// Place at `cell` for the player to move on a copy, taking off captured enemy
    /// groups: the resulting board, whether anything was captured, whether it is suicide.
    pub fn simulate(&self, cell: usize) -> (r: (Vec<i8>, bool, bool))
        requires
            self.wf(),
            cell < self.board@.len(),
        ensures
            r.0@ == self.simulate_spec(cell as int).0,
            r.1 == self.simulate_spec(cell as int).1,
            r.2 == self.simulate_spec(cell as int).2,
    {
        let ghost (ci, ri) = (self.cols as int, self.rows as int);
        let mut b: Vec<i8> = Vec::new();
        let mut i: usize = 0;
        while i < self.board.len()
            invariant
                i <= self.board@.len(),
                b@ == self.board@.take(i as int),
            decreases self.board@.len() - i,
        {
            b.push(self.board[i]);
            i += 1;
            assert(b@ =~= self.board@.take(i as int));
        }
        assert(self.board@.take(self.board@.len() as int) =~= self.board@);
        b.set(cell, self.current as i8);
        let ghost b0 = b@;
        let enemy: i8 = 1 - self.current as i8;
        let mut captured = false;
        let nbs = self.orth(cell);
        let ghost ns = orth_spec(ci, ri, cell as int);
        let mut k: usize = 0;
        while k < nbs.len()
            invariant
                self.wf(),
                ci == self.cols,
                ri == self.rows,
                b@.len() == self.board@.len(),
                nbs@.len() == ns.len(),
                forall|j: int| 0 <= j < nbs@.len() ==> #[trigger] nbs@[j] as int == ns[j],
                forall|j: int| 0 <= j < nbs@.len() ==> #[trigger] nbs@[j] < self.board@.len(),
                k <= nbs@.len(),
                (b@, captured) == captures_upto(b0, ci, ri, ns, enemy, k as int),
                enemy == 1 - self.current,
                b@[cell as int] == self.current as i8,
                cell < self.board@.len(),
            decreases nbs@.len() - k,
        {
            let nb = nbs[k];
            if b[nb] == enemy {
                let (grp, lib) = self.group(&b, nb);
                if !lib {
                    let ghost b1 = b@;
                    self.remove_group_exec(&mut b, &grp, Ghost(nb as int));
                    proof {
                        if in_group(b1, ci, ri, nb as int, cell as int) {
                            lemma_group_in_range(b1, ci, ri, nb as int, cell as int);
                        }
                    }
                    captured = true;
                }
            }
            k += 1;
        }
        let (_, own_lib) = self.group(&b, cell);
        (b, captured, !own_lib && !captured)
    }
}

/// Taking off groups only empties points: every point keeps its value or becomes empty.
proof fn lemma_captures_shape(b: Seq<i8>, cols: int, rows: int, nbs: Seq<int>, enemy: i8, k: int)
    ensures
        captures_upto(b, cols, rows, nbs, enemy, k).0.len() == b.len(),
        forall|c: int| 0 <= c < b.len() ==> #[trigger] captures_upto(b, cols, rows, nbs, enemy, k).0[c] == b[c]
            || captures_upto(b, cols, rows, nbs, enemy, k).0[c] == -1,
    decreases k,
{
    if k > 0 {
        lemma_captures_shape(b, cols, rows, nbs, enemy, k - 1);
    }
}

impl CaptureGo {
    /// Legal points among the first `k`: empty, and not suicide.
    pub open spec fn moves_upto(&self, k: int) -> Seq<u16>
        decreases k,
    {
        if k <= 0 {
            seq![]
        } else {
            self.moves_upto(k - 1) + if self.board@[k - 1] == -1 && !self.simulate_spec(k - 1).2 {
                seq![(k - 1) as u16]
            } else {
                seq![]
            }
        }
    }

    /// The legal placements: every empty point that is not suicide, none once someone
    /// has captured.
    pub open spec fn moves_spec(&self) -> Seq<u16> {
        if self.last_capture is Some {
            seq![]
        } else {
            self.moves_upto(self.board@.len() as int)
        }
    }

    /// Value for the player to move once the game is over.
    pub open spec fn term_spec(&self) -> Option<Outcome> {
        match self.last_capture {
            Some(cap) => Some(if cap == self.current { Outcome::Win } else { Outcome::Loss }),
            None => None,
        }
    }

    proof fn lemma_moves_upto_shape(&self, k: int, m: u16)
        requires
            self.wf(),
            0 <= k <= self.board@.len(),
            self.moves_upto(k).contains(m),
        ensures
            (m as int) < k,
            self.board@[m as int] == -1,
            !self.simulate_spec(m as int).2,
        decreases k,
    {
        if k > 0 {
            let a = self.moves_upto(k - 1);
            if a.contains(m) {
                self.lemma_moves_upto_shape(k - 1, m);
            } else {
                let j = choose|j: int| 0 <= j < self.moves_upto(k).len() && self.moves_upto(k)[j] == m;
                assert(j >= a.len());
                assert(m == (k - 1) as u16);
            }
        }
    }

    pub fn available_moves(&self) -> (v: Vec<u16>)
        requires
            self.wf(),
        ensures
            v@ == self.moves_spec(),
    {
        let mut v: Vec<u16> = Vec::new();
        if self.last_capture.is_some() {
            return v;
        }
        let mut i: usize = 0;
        while i < self.board.len()
            invariant
                self.wf(),
                i <= self.board@.len(),
                v@ == self.moves_upto(i as int),
            decreases self.board@.len() - i,
        {
            if self.board[i] == -1 {
                let (_, _, suicide) = self.simulate(i);
                if !suicide {
                    v.push(i as u16);
                }
            }
            i += 1;
        }
        v
    }

    /// `next` is this position after placing at `m`: the simulated board, the capture
    /// recorded, the turn passed.
    pub open spec fn moved(&self, next: CaptureGo, m: u16) -> bool {
        &&& next.cols == self.cols
        &&& next.rows == self.rows
        &&& next.board@ == self.simulate_spec(m as int).0
        &&& next.last_capture == if self.simulate_spec(m as int).1 {
            Some(self.current)
        } else {
            self.last_capture
        }
        &&& next.current == 1 - self.current
    }

    /// Place for the player to move at the legal point `m`.
    pub fn make_move(&mut self, m: &u16)
        requires
            old(self).wf(),
            old(self).moves_spec().contains(*m),
        ensures
            final(self).wf(),
            old(self).moved(*final(self), *m),
    {
        proof {
            old(self).lemma_moves_upto_shape(old(self).board@.len() as int, *m);
            let b0 = old(self).board@.update(*m as int, old(self).current as i8);
            let nbs = orth_spec(old(self).cols as int, old(self).rows as int, *m as int);
            lemma_captures_shape(b0, old(self).cols as int, old(self).rows as int, nbs, (1 - old(self).current) as i8, nbs.len() as int);
        }
        let (b, captured, _) = self.simulate(*m as usize);
        self.board = b;
        if captured {
            self.last_capture = Some(self.current);
        }
        self.current = 1 - self.current;
    }

    pub fn term(&self) -> (t: Option<Outcome>)
        ensures
            t == self.term_spec(),
    {
        match self.last_capture {
            Some(cap) => Some(if cap == self.current { Outcome::Win } else { Outcome::Loss }),
            None => None,
        }
    }

    pub fn current_player(&self) -> (p: u8)
        ensures
            p == self.current,
    {
        self.current
    }
}

/// Orthogonal neighbourhood is symmetric.
proof fn lemma_adj_sym(cols: int, rows: int, a: int, n: int)
    requires
        cols >= 0,
        rows >= 0,
        0 <= a < cols * rows,
        adj(cols, rows, a, n),
    ensures
        0 <= n < cols * rows,
        adj(cols, rows, n, a),
{
    lemma_cell_arith(cols, rows, a);
    lemma_orth_in_range(cols, rows, a);
    let (r, c) = (a / cols, a % cols);
    let o = orth_spec(cols, rows, a);
    let j = choose|j: int| 0 <= j < o.len() && o[j] == n;
    let s1: Seq<int> = if r > 0 { seq![(r - 1) * cols + c] } else { seq![] };
    let s2: Seq<int> = if r + 1 < rows { seq![(r + 1) * cols + c] } else { seq![] };
    let s3: Seq<int> = if c > 0 { seq![r * cols + (c - 1)] } else { seq![] };
    let s4: Seq<int> = if c + 1 < cols { seq![r * cols + (c + 1)] } else { seq![] };
    assert(o == s1 + s2 + s3 + s4);
    lemma_cell_arith(cols, rows, n);
    let (r2, c2) = (n / cols, n % cols);
    let t1: Seq<int> = if r2 > 0 { seq![(r2 - 1) * cols + c2] } else { seq![] };
    let t2: Seq<int> = if r2 + 1 < rows { seq![(r2 + 1) * cols + c2] } else { seq![] };
    let t3: Seq<int> = if c2 > 0 { seq![r2 * cols + (c2 - 1)] } else { seq![] };
    let t4: Seq<int> = if c2 + 1 < cols { seq![r2 * cols + (c2 + 1)] } else { seq![] };
    let q = orth_spec(cols, rows, n);
    assert(q == t1 + t2 + t3 + t4);
    if j < s1.len() {
        assert(n == a - cols);
        vstd::arithmetic::div_mod::lemma_fundamental_div_mod_converse(n, cols, r - 1, c);
        assert(t2.len() == 1 && t2[0] == a);
        assert(q[t1.len() as int] == a);
    } else if j < s1.len() + s2.len() {
        assert(n == a + cols);
        vstd::arithmetic::div_mod::lemma_fundamental_div_mod_converse(n, cols, r + 1, c);
        assert(t1.len() == 1 && t1[0] == a);
        assert(q[0] == a);
    } else if j < s1.len() + s2.len() + s3.len() {
        assert(n == a - 1);
        vstd::arithmetic::div_mod::lemma_fundamental_div_mod_converse(n, cols, r, c - 1);
        assert(t4.len() == 1 && t4[0] == a);
        assert(q[(t1.len() + t2.len() + t3.len()) as int] == a);
    } else {
        assert(n == a + 1);
        vstd::arithmetic::div_mod::lemma_fundamental_div_mod_converse(n, cols, r, c + 1);
        assert(t3.len() == 1 && t3[0] == a);
        assert(q[(t1.len() + t2.len()) as int] == a);
    }
}

/// Group membership is symmetric.
proof fn lemma_group_sym(b: Seq<i8>, cols: int, rows: int, s: int, c: int)
    requires
        cols >= 0,
        rows >= 0,
        b.len() == cols * rows,
        in_group(b, cols, rows, s, c),
    ensures
        in_group(b, cols, rows, c, s),
{
    let p = choose|p: Seq<int>| #[trigger] is_path(b, cols, rows, p) && p[0] == s && p[p.len() - 1] == c;
    let q = p.reverse();
    assert forall|i: int| 0 <= i < q.len() - 1 implies adj(cols, rows, #[trigger] q[i], q[i + 1]) by {
        let k = p.len() - 2 - i;
        assert(adj(cols, rows, p[k], p[k + 1]));
        assert(q[i] == p[k + 1] && q[i + 1] == p[k]);
        lemma_adj_sym(cols, rows, p[k], p[k + 1]);
    }
    assert forall|i: int| 0 <= i < q.len() implies 0 <= #[trigger] q[i] < b.len() && b[q[i]] == b[q[0]] by {
        assert(q[i] == p[p.len() - 1 - i]);
        assert(q[0] == p[p.len() - 1]);
    }
    assert(is_path(b, cols, rows, q));
}

/// Group membership is transitive.
proof fn lemma_group_trans(b: Seq<i8>, cols: int, rows: int, s: int, m: int, c: int)
    requires
        in_group(b, cols, rows, s, m),
        in_group(b, cols, rows, m, c),
    ensures
        in_group(b, cols, rows, s, c),
{
    let p = choose|p: Seq<int>| #[trigger] is_path(b, cols, rows, p) && p[0] == s && p[p.len() - 1] == m;
    let q = choose|q: Seq<int>| #[trigger] is_path(b, cols, rows, q) && q[0] == m && q[q.len() - 1] == c;
    let w = p + q.drop_first();
    assert forall|i: int| 0 <= i < w.len() implies 0 <= #[trigger] w[i] < b.len() && b[w[i]] == b[w[0]] by {
        if i >= p.len() {
            assert(w[i] == q[i - p.len() + 1]);
        }
    }
    assert forall|i: int| 0 <= i < w.len() - 1 implies adj(cols, rows, #[trigger] w[i], w[i + 1]) by {
        if i < p.len() - 1 {
            assert(adj(cols, rows, p[i], p[i + 1]));
        } else if i == p.len() - 1 {
            assert(w[i] == q[0]);
            assert(w[i + 1] == q[1]);
            assert(adj(cols, rows, q[0], q[1]));
        } else {
            assert(w[i] == q[i - p.len() + 1]);
            assert(w[i + 1] == q[i - p.len() + 2]);
            assert(adj(cols, rows, q[i - p.len() + 1], q[i - p.len() + 2]));
        }
    }
    assert(is_path(b, cols, rows, w));
    assert(w[w.len() - 1] == c) by {
        if q.len() == 1 {
            assert(m == c);
        }
    }
}

/// `i` is the lowest-numbered stone of its group.
pub open spec fn is_rep(b: Seq<i8>, cols: int, rows: int, i: int) -> bool {
    forall|j: int| 0 <= j < i ==> !#[trigger] in_group(b, cols, rows, i, j)
}

/// The empty points next to the group of the stone at `s`: its liberties.
pub open spec fn lib_set(b: Seq<i8>, cols: int, rows: int, s: int) -> Set<usize> {
    Set::new(
        |n: usize|
            (n as int) < b.len() && b[n as int] == -1 && exists|c: int| #[trigger] in_group(b, cols, rows, s, c) && adj(cols, rows, c, n as int),
    )
}

/// Groups of colour `color` among the first `k` points (each counted at its
/// lowest-numbered stone) that have exactly one liberty: groups in atari.
pub open spec fn atari_upto(b: Seq<i8>, cols: int, rows: int, color: i8, k: int) -> int
    decreases k,
{
    if k <= 0 {
        0
    } else {
        atari_upto(b, cols, rows, color, k - 1) + if b[k - 1] == color && is_rep(b, cols, rows, k - 1) && lib_set(
            b,
            cols,
            rows,
            k - 1,
        ).len() == 1 {
            1int
        } else {
            0int
        }
    }
}

impl CaptureGo {
    /// Heuristic value for the first player: centre control of both sides, plus six for
    /// every group of the second player in atari, minus six for every group of the first.
    pub open spec fn eval_spec(&self) -> int {
        let (b, c, r) = (self.board@, self.cols as int, self.rows as int);
        center_total(b, c, r, 0, r) - center_total(b, c, r, 1, r) + 6 * atari_upto(b, c, r, 1, b.len() as int) - 6 * atari_upto(
            b,
            c,
            r,
            0,
            b.len() as int,
        )
    }

    /// Number of liberties of the group `grp` of the stone at `s`.
    fn liberties(&self, grp: &Vec<usize>, Ghost(s): Ghost<int>) -> (n: usize)
        requires
            self.wf(),
            0 <= s < self.board@.len(),
            forall|j: int| 0 <= j < grp@.len() ==> (#[trigger] grp@[j]) < self.board@.len() && in_group(self.board@, self.cols as int, self.rows as int, s, grp@[j] as int),
            forall|c: int| 0 <= c < self.board@.len() && #[trigger] in_group(self.board@, self.cols as int, self.rows as int, s, c) ==> grp@.contains(c as usize),
        ensures
            n == lib_set(self.board@, self.cols as int, self.rows as int, s).len(),
    {
        broadcast use vstd::std_specs::hash::group_hash_axioms;
        let ghost (b, ci, ri) = (self.board@, self.cols as int, self.rows as int);
        let mut l: HashSet<usize> = HashSet::new();
        let mut t: usize = 0;
        while t < grp.len()
            invariant
                self.wf(),
                b == self.board@,
                ci == self.cols,
                ri == self.rows,
                t <= grp@.len(),
                forall|j: int| 0 <= j < grp@.len() ==> (#[trigger] grp@[j]) < b.len(),
                l@ == Set::new(|n: usize| (n as int) < b.len() && b[n as int] == -1 && exists|j: int| 0 <= j < t && #[trigger] adj(ci, ri, grp@[j] as int, n as int)),
                l@.finite(),
            decreases grp@.len() - t,
        {
            let g = grp[t];
            let nbs = self.orth(g);
            let ghost l0 = l@;
            let mut k: usize = 0;
            while k < nbs.len()
                invariant
                    self.wf(),
                    b == self.board@,
                    ci == self.cols,
                    ri == self.rows,
                    g < b.len(),
                    nbs@.len() == orth_spec(ci, ri, g as int).len(),
                    forall|j: int| 0 <= j < nbs@.len() ==> #[trigger] nbs@[j] as int == orth_spec(ci, ri, g as int)[j],
                    forall|j: int| 0 <= j < nbs@.len() ==> #[trigger] nbs@[j] < b.len(),
                    k <= nbs@.len(),
                    l@ == l0.union(Set::new(|n: usize| (n as int) < b.len() && b[n as int] == -1 && exists|q: int| 0 <= q < k && #[trigger] nbs@[q] == n)),
                    l0.finite(),
                    l@.finite(),
                decreases nbs@.len() - k,
            {
                let nb = nbs[k];
                if self.board[nb] == -1 {
                    l.insert(nb);
                }
                proof {
                    assert(l@ =~= l0.union(Set::new(|n: usize| (n as int) < b.len() && b[n as int] == -1 && exists|q: int| 0 <= q < k + 1 && #[trigger] nbs@[q] == n)));
                }
                k += 1;
            }
            proof {
                assert forall|n: usize| #[trigger] l@.contains(n) == ((n as int) < b.len() && b[n as int] == -1 && exists|j: int| 0 <= j < t + 1 && #[trigger] adj(ci, ri, grp@[j] as int, n as int)) by {
                    if (n as int) < b.len() && b[n as int] == -1 {
                        if exists|q: int| 0 <= q < nbs@.len() && #[trigger] nbs@[q] == n {
                            let q = choose|q: int| 0 <= q < nbs@.len() && #[trigger] nbs@[q] == n;
                            assert(orth_spec(ci, ri, g as int)[q] == n as int);
                            assert(grp@[t as int] == g);
                            assert(adj(ci, ri, grp@[t as int] as int, n as int));
                        }
                        if exists|j: int| 0 <= j < t + 1 && #[trigger] adj(ci, ri, grp@[j] as int, n as int) {
                            let j = choose|j: int| 0 <= j < t + 1 && #[trigger] adj(ci, ri, grp@[j] as int, n as int);
                            if j == t {
                                let q = choose|q: int| 0 <= q < orth_spec(ci, ri, g as int).len() && orth_spec(ci, ri, g as int)[q] == n as int;
                                assert(nbs@[q] == n);
                            }
                        }
                    }
                }
                assert(l@ =~= Set::new(|n: usize| (n as int) < b.len() && b[n as int] == -1 && exists|j: int| 0 <= j < t + 1 && #[trigger] adj(ci, ri, grp@[j] as int, n as int)));
            }
            t += 1;
        }
        proof {
            assert forall|n: usize| #[trigger] l@.contains(n) == lib_set(b, ci, ri, s).contains(n) by {
                if l@.contains(n) {
                    let j = choose|j: int| 0 <= j < grp@.len() && #[trigger] adj(ci, ri, grp@[j] as int, n as int);
                    assert(in_group(b, ci, ri, s, grp@[j] as int));
                }
                if lib_set(b, ci, ri, s).contains(n) {
                    let c = choose|c: int| #[trigger] in_group(b, ci, ri, s, c) && adj(ci, ri, c, n as int);
                    lemma_group_in_range(b, ci, ri, s, c);
                    assert(grp@.contains(c as usize));
                    let j = choose|j: int| 0 <= j < grp@.len() && grp@[j] == c as usize;
                    assert(adj(ci, ri, grp@[j] as int, n as int));
                }
            }
            assert(l@ =~= lib_set(b, ci, ri, s));
        }
        l.len()
    }
}

proof fn lemma_atari_bound(b: Seq<i8>, cols: int, rows: int, color: i8, k: int)
    ensures
        0 <= atari_upto(b, cols, rows, color, k) <= if k < 0 { 0 } else { k },
    decreases k,
{
    if k > 0 {
        lemma_atari_bound(b, cols, rows, color, k - 1);
    }
}

impl CaptureGo {
    /// Number of groups of colour `color` in atari.
    fn atari_groups(&self, color: i8) -> (n: usize)
        requires
            self.wf(),
            color == 0 || color == 1,
        ensures
            n == atari_upto(self.board@, self.cols as int, self.rows as int, color, self.board@.len() as int),
    {
        let ghost (b, ci, ri) = (self.board@, self.cols as int, self.rows as int);
        let len = self.board.len();
        let mut seen: Vec<bool> = Vec::new();
        let mut i: usize = 0;
        while i < len
            invariant
                i <= len,
                seen@.len() == i,
                forall|j: int| 0 <= j < i ==> !#[trigger] seen@[j],
            decreases len - i,
        {
            seen.push(false);
            i += 1;
        }
        let mut n: usize = 0;
        let mut i: usize = 0;
        while i < len
            invariant
                self.wf(),
                b == self.board@,
                ci == self.cols,
                ri == self.rows,
                len == b.len(),
                color == 0 || color == 1,
                i <= len,
                seen@.len() == len,
                forall|c: int| 0 <= c < len ==> (#[trigger] seen@[c] <==> exists|j: int| 0 <= j < i && b[j] == color && #[trigger] in_group(b, ci, ri, j, c)),
                n == atari_upto(b, ci, ri, color, i as int),
                n <= i,
            decreases len - i,
        {
            if self.board[i] == color && !seen[i] {
                proof {
                    assert forall|j: int| 0 <= j < i implies !#[trigger] in_group(b, ci, ri, i as int, j) by {
                        if in_group(b, ci, ri, i as int, j) {
                            lemma_group_sym(b, ci, ri, i as int, j);
                            lemma_group_in_range(b, ci, ri, j, i as int);
                            assert(seen@[i as int]);
                        }
                    }
                }
                let (grp, _) = self.group(&self.board, i);
                let ghost s0 = seen@;
                let mut t: usize = 0;
                while t < grp.len()
                    invariant
                        seen@.len() == len,
                        t <= grp@.len(),
                        forall|j: int| 0 <= j < grp@.len() ==> (#[trigger] grp@[j]) < len,
                        forall|c: int| 0 <= c < len ==> #[trigger] seen@[c] == (s0[c] || grp@.take(t as int).contains(c as usize)),
                    decreases grp@.len() - t,
                {
                    let g = grp[t];
                    seen.set(g, true);
                    proof {
                        assert forall|c: int| 0 <= c < len implies #[trigger] seen@[c] == (s0[c] || grp@.take(t + 1).contains(c as usize)) by {
                            assert(grp@.take(t + 1) =~= grp@.take(t as int).push(g));
                            if grp@.take(t as int).contains(c as usize) {
                                let j = choose|j: int| 0 <= j < t && grp@.take(t as int)[j] == c as usize;
                                assert(grp@.take(t + 1)[j] == c as usize);
                            }
                            if c == g as int {
                                assert(grp@.take(t + 1)[t as int] == g);
                            }
                        }
                    }
                    t += 1;
                }
                proof {
                    assert(grp@.take(grp@.len() as int) =~= grp@);
                    assert forall|c: int| 0 <= c < len implies (#[trigger] seen@[c] <==> exists|j: int| 0 <= j < i + 1 && b[j] == color && #[trigger] in_group(b, ci, ri, j, c)) by {
                        if grp@.contains(c as usize) {
                            let q = choose|q: int| 0 <= q < grp@.len() && grp@[q] == c as usize;
                            assert(in_group(b, ci, ri, i as int, grp@[q] as int));
                        }
                        if in_group(b, ci, ri, i as int, c) {
                            assert(grp@.contains(c as usize));
                        }
                    }
                }
                let libs = self.liberties(&grp, Ghost(i as int));
                if libs == 1 {
                    n += 1;
                }
            } else {
                proof {
                    if b[i as int] == color {
                        let j = choose|j: int| 0 <= j < i && b[j] == color && #[trigger] in_group(b, ci, ri, j, i as int);
                        lemma_group_sym(b, ci, ri, j, i as int);
                        assert(in_group(b, ci, ri, i as int, j));
                        assert(!is_rep(b, ci, ri, i as int));
                    }
                    assert forall|c: int| 0 <= c < len implies (#[trigger] seen@[c] <==> exists|j: int| 0 <= j < i + 1 && b[j] == color && #[trigger] in_group(b, ci, ri, j, c)) by {
                        if b[i as int] == color && in_group(b, ci, ri, i as int, c) {
                            let j = choose|j: int| 0 <= j < i && b[j] == color && #[trigger] in_group(b, ci, ri, j, i as int);
                            lemma_group_trans(b, ci, ri, j, i as int, c);
                        }
                    }
                }
            }
            i += 1;
        }
        n
    }

    /// Heuristic value for the first player: centre control, and groups in atari.
    pub fn eval0(&self) -> (s: i64)
        requires
            self.wf(),
        ensures
            s == self.eval_spec(),
    {
        let ghost (b, ci, ri) = (self.board@, self.cols as int, self.rows as int);
        assert(self.rows * self.cols * (self.rows + self.cols) <= 65536 * 512) by (nonlinear_arith)
            requires
                self.rows <= 256,
                self.cols <= 256,
        ;
        let a = center_eval(self.board.as_slice(), self.cols, self.rows, 0);
        let c = center_eval(self.board.as_slice(), self.cols, self.rows, 1);
        let mut s: i64 = a - c;
        let threat0 = self.atari_groups(1);
        let threat1 = self.atari_groups(0);
        proof {
            lemma_atari_bound(b, ci, ri, 1, b.len() as int);
            lemma_atari_bound(b, ci, ri, 0, b.len() as int);
        }
        // Enemy groups in atari are good for the side that can take them.
        s = s + 6 * threat0 as i64;
        s = s - 6 * threat1 as i64;
        s
    }
}

/// Point character: `X` first player, `O` second player, ` ` empty.
pub open spec fn stone_char(v: i8) -> char {
    if v == 0 {
        'X'
    } else if v == 1 {
        'O'
    } else {
        ' '
    }
}

impl CaptureGo {
    /// The board, one character per point, row by row.
    pub open spec fn board_text(&self) -> Seq<char> {
        Seq::new(self.board@.len(), |i: int| stone_char(self.board@[i]))
    }

    pub fn board_string(&self) -> (s: String)
        ensures
            s@ == self.board_text(),
    {
        let mut s = String::new();
        let mut i: usize = 0;
        while i < self.board.len()
            invariant
                i <= self.board@.len(),
                s@ == Seq::new(i as nat, |j: int| stone_char(self.board@[j])),
            decreases self.board@.len() - i,
        {
            let v = self.board[i];
            push_char(&mut s, if v == 0 { 'X' } else if v == 1 { 'O' } else { ' ' });
            assert(s@ =~= Seq::new((i + 1) as nat, |j: int| stone_char(self.board@[j])));
            i += 1;
        }
        s
    }

    /// The result: the winning seat counted from 1, or empty while running.
    pub open spec fn result_text(&self) -> Seq<char> {
        match self.term_spec() {
            Some(Outcome::Win) => dec((self.current + 1) as nat),
            Some(Outcome::Loss) => dec((1 - self.current + 1) as nat),
            _ => seq![],
        }
    }

    pub fn result_string(&self) -> (s: String)
        requires
            self.wf(),
        ensures
            s@ == self.result_text(),
    {
        let mut s = String::new();
        match self.term() {
            Some(Outcome::Win) => push_dec(&mut s, self.current as u64 + 1),
            Some(Outcome::Loss) => push_dec(&mut s, (1 - self.current) as u64 + 1),
            _ => {},
        }
        s
    }

    /// The legal points, in decimal, joined by `,`.
    pub fn legal_moves_string(&self) -> (s: String)
        requires
            self.wf(),
        ensures
            s@ == join_nums(u16s(self.moves_spec()), ','),
    {
        let moves = self.available_moves();
        let mut s = String::new();
        push_joined(&mut s, &moves, ',');
        assert(s@ =~= join_nums(u16s(self.moves_spec()), ','));
        s
    }

    /// Read a point number and place there if legal; false, leaving the game unchanged,
    /// otherwise.
    pub fn apply_text(&mut self, mov: &str) -> (ok: bool)
        requires
            old(self).wf(),
        ensures
            final(self).wf(),
            ok == (parse_uint(mov@, 65535) matches Some(v) && v < old(self).board@.len() && old(self).moves_spec().contains(v as u16)),
            !ok ==> *final(self) == *old(self),
            ok ==> old(self).moved(*final(self), (parse_uint(mov@, 65535)->0) as u16),
    {
        let cs = chars_of(mov);
        let v = match parse_uint_range(&cs, 0, cs.len(), 65535) {
            Some(v) => v,
            None => {
                proof {
                    assert(cs@.subrange(0, cs@.len() as int) =~= mov@);
                }
                return false;
            },
        };
        proof {
            assert(cs@.subrange(0, cs@.len() as int) =~= mov@);
        }
        if v >= self.board.len() as u64 {
            return false;
        }
        let m = v as u16;
        let moves = self.available_moves();
        let mut found = false;
        let mut i: usize = 0;
        while i < moves.len()
            invariant
                i <= moves@.len(),
                found == exists|j: int| 0 <= j < i && moves@[j] == m,
            decreases moves@.len() - i,
        {
            if moves[i] == m {
                found = true;
            }
            i += 1;
        }
        if !found {
            return false;
        }
        self.make_move(&m);
        true
    }
}

/// The first capture wins: after a move that captures, the game is over and the
/// opponent, now to move, has lost; nothing more can be played.
pub proof fn lemma_capture_wins(g: CaptureGo, m: u16, next: CaptureGo)
    requires
        g.wf(),
        g.moves_spec().contains(m),
        g.moved(next, m),
        g.simulate_spec(m as int).1,
    ensures
        next.term_spec() == Some(Outcome::Loss),
        next.moves_spec().len() == 0,
{
}

/// A legal placement is never suicide: the placed stone's group keeps a liberty or
/// something was captured.
pub proof fn lemma_no_suicide(g: CaptureGo, m: u16)
    requires
        g.wf(),
        g.moves_spec().contains(m),
    ensures
        has_liberty(g.simulate_spec(m as int).0, g.cols as int, g.rows as int, m as int) || g.simulate_spec(m as int).1,
{
    g.lemma_moves_upto_shape(g.board@.len() as int, m);
}


/// `orth_spec` lists exactly the on-board cells one step up, down, left or right of
/// `cell`, each once.
pub proof fn lemma_orth_exact(cols: int, rows: int, cell: int, r2: int, c2: int)
    requires
        cols >= 1,
        0 <= cell < cols * rows,
        0 <= r2 < rows,
        0 <= c2 < cols,
    ensures
        orth_spec(cols, rows, cell).contains(r2 * cols + c2) <==> (if r2 >= cell / cols { r2 - cell / cols } else { cell / cols - r2 }) + (if c2
            >= cell % cols {
            c2 - cell % cols
        } else {
            cell % cols - c2
        }) == 1,
        orth_spec(cols, rows, cell).no_duplicates(),
        forall|k: int| 0 <= k < orth_spec(cols, rows, cell).len() ==> 0 <= #[trigger] orth_spec(cols, rows, cell)[k] < cols * rows,
{
    lemma_cell_arith(cols, rows, cell);
    let (r, c) = (cell / cols, cell % cols);
    let o = orth_spec(cols, rows, cell);
    let x = r2 * cols + c2;
    vstd::arithmetic::div_mod::lemma_fundamental_div_mod_converse(x, cols, r2, c2);
    let up = if r > 0 { seq![(r - 1) * cols + c] } else { seq![] };
    let down = if r + 1 < rows { seq![(r + 1) * cols + c] } else { seq![] };
    let left = if c > 0 { seq![r * cols + (c - 1)] } else { seq![] };
    let right = if c + 1 < cols { seq![r * cols + (c + 1)] } else { seq![] };
    assert(o == up + down + left + right);
    if r > 0 {
        vstd::arithmetic::div_mod::lemma_fundamental_div_mod_converse((r - 1) * cols + c, cols, r - 1, c);
        crate::gridlib::lemma_cell_index(rows, cols, r - 1, c);
    }
    if r + 1 < rows {
        vstd::arithmetic::div_mod::lemma_fundamental_div_mod_converse((r + 1) * cols + c, cols, r + 1, c);
        crate::gridlib::lemma_cell_index(rows, cols, r + 1, c);
    }
    if c > 0 {
        vstd::arithmetic::div_mod::lemma_fundamental_div_mod_converse(r * cols + (c - 1), cols, r, c - 1);
        crate::gridlib::lemma_cell_index(rows, cols, r, c - 1);
    }
    if c + 1 < cols {
        vstd::arithmetic::div_mod::lemma_fundamental_div_mod_converse(r * cols + (c + 1), cols, r, c + 1);
        crate::gridlib::lemma_cell_index(rows, cols, r, c + 1);
    }
    let dist = (if r2 >= r { r2 - r } else { r - r2 }) + (if c2 >= c { c2 - c } else { c - c2 });
    if o.contains(x) {
        let k = choose|k: int| 0 <= k < o.len() && o[k] == x;
        assert(dist == 1);
    }
    if dist == 1 {
        if r2 == r - 1 {
            assert(c2 == c);
            assert(o[0] == x);
        } else if r2 == r + 1 {
            assert(o[up.len() as int] == x);
        } else if c2 == c - 1 {
            assert(o[(up.len() + down.len()) as int] == x);
        } else {
            assert(c2 == c + 1);
            assert(o[(up.len() + down.len() + left.len()) as int] == x);
        }
    }
}

} // verus!
