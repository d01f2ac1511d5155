//! Shared helpers for the "grid pack" line/shape games.
//! A board is a row-major slice of `i8`: `-1` = empty, `>= 0` = symbol/player id.
use vstd::prelude::*;

verus! {

pub const MAX_DIM: usize = 12;

/// Side lengths whose coordinates fit an `i32`.
pub open spec fn dim_ok(rows: int, cols: int) -> bool {
    0 <= rows <= 0x7fff_ffff && 0 <= cols <= 0x7fff_ffff
}

/// The board holds the `rows * cols` cells of the grid (cells beyond them are not read).
pub open spec fn shaped(b: Seq<i8>, cols: int, rows: int) -> bool {
    &&& dim_ok(rows, cols)
    &&& rows * cols <= b.len()
    &&& b.len() <= usize::MAX
    &&& 1 + 2 * (rows + cols) <= usize::MAX
}

pub open spec fn in_grid(rows: int, cols: int, r: int, c: int) -> bool {
    0 <= r < rows && 0 <= c < cols
}

/// The cell at row `r`, column `c`.
pub open spec fn cell(b: Seq<i8>, cols: int, r: int, c: int) -> i8 {
    b[r * cols + c]
}

pub proof fn lemma_cell_index(rows: int, cols: int, r: int, c: int)
    requires
        in_grid(rows, cols, r, c),
    ensures
        0 <= r * cols + c < rows * cols,
        r * cols <= (rows - 1) * cols,
{
    assert(0 <= r * cols + c < rows * cols) by (nonlinear_arith)
        requires
            0 <= r < rows,
            0 <= c < cols,
    ;
    assert(r * cols <= (rows - 1) * cols) by (nonlinear_arith)
        requires
            0 <= r < rows,
            0 <= c < cols,
    ;
}

/// Number of consecutive cells holding `sym` at steps `k, k + 1, ...` from `(r, c)`
/// along `(dr, dc)`, stopping at the first step that leaves the board or differs.
pub open spec fn run_len(
    b: Seq<i8>,
    cols: int,
    rows: int,
    r: int,
    c: int,
    dr: int,
    dc: int,
    sym: i8,
    k: int,
) -> int
    decreases rows + cols - k,
{
    if k >= rows + cols {
        0
    } else if in_grid(rows, cols, r + dr * k, c + dc * k) && cell(b, cols, r + dr * k, c + dc * k)
        == sym {
        1 + run_len(b, cols, rows, r, c, dr, dc, sym, k + 1)
    } else {
        0
    }
}

/// Length of the line of `sym` through `(r, c)` along `(dr, dc)`, the cell itself included.
pub open spec fn line_through(
    b: Seq<i8>,
    cols: int,
    rows: int,
    r: int,
    c: int,
    dr: int,
    dc: int,
    sym: i8,
) -> int {
    1 + run_len(b, cols, rows, r, c, dr, dc, sym, 1) + run_len(b, cols, rows, r, c, -dr, -dc, sym, 1)
}

pub open spec fn max2(a: int, b: int) -> int {
    if b > a {
        b
    } else {
        a
    }
}

/// Longest run of `sym` through `(r, c)` over the four line directions; 0 when the cell
/// does not hold `sym`.
pub open spec fn max_run_spec(b: Seq<i8>, cols: int, rows: int, r: int, c: int, sym: i8) -> int {
    if cell(b, cols, r, c) != sym {
        0
    } else {
        max2(
            max2(
                max2(max2(1, line_through(b, cols, rows, r, c, 0, 1, sym)), line_through(b, cols, rows, r, c, 1, 0, sym)),
                line_through(b, cols, rows, r, c, 1, 1, sym),
            ),
            line_through(b, cols, rows, r, c, 1, -1, sym),
        )
    }
}

#[inline]
pub fn idx(r: usize, c: usize, cols: usize) -> (i: usize)
    requires
        r * cols + c <= usize::MAX,
    ensures
        i == r * cols + c,
{
    r * cols + c
}

proof fn lemma_run_len_nonneg(b: Seq<i8>, cols: int, rows: int, r: int, c: int, dr: int, dc: int, sym: i8, k: int)
    ensures
        run_len(b, cols, rows, r, c, dr, dc, sym, k) >= 0,
        run_len(b, cols, rows, r, c, dr, dc, sym, k) <= if k >= rows + cols { 0 } else { rows + cols - k },
    decreases rows + cols - k,
{
    if k < rows + cols {
        lemma_run_len_nonneg(b, cols, rows, r, c, dr, dc, sym, k + 1);
    }
}

/// Counts the cells of `sym` met by stepping from `(r, c)` along `(dr, dc)`.
fn ray(board: &[i8], cols: usize, rows: usize, r: usize, c: usize, dr: i64, dc: i64, sym: i8) -> (n: usize)
    requires
        shaped(board@, cols as int, rows as int),
        in_grid(rows as int, cols as int, r as int, c as int),
        -1 <= dr <= 1,
        -1 <= dc <= 1,
        dr != 0 || dc != 0,
    ensures
        n == run_len(board@, cols as int, rows as int, r as int, c as int, dr as int, dc as int, sym, 1),
        n <= rows + cols,
{
    let ghost b = board@;
    let ghost (ci, ri, ri0, ci0) = (cols as int, rows as int, r as int, c as int);
    let mut k: i64 = 1;
    let mut nr: i64 = r as i64 + dr;
    let mut nc: i64 = c as i64 + dc;
    let mut count: usize = 0;
    proof {
        lemma_run_len_nonneg(b, ci, ri, ri0, ci0, dr as int, dc as int, sym, 1);
    }
    loop
        invariant
            shaped(b, ci, ri),
            board@ == b,
            ci == cols,
            ri == rows,
            ri0 == r,
            ci0 == c,
            in_grid(ri, ci, ri0, ci0),
            -1 <= dr <= 1,
            -1 <= dc <= 1,
            dr != 0 || dc != 0,
            1 <= k <= ri + ci + 1,
            count == k - 1,
            nr == ri0 + dr * k,
            nc == ci0 + dc * k,
            run_len(b, ci, ri, ri0, ci0, dr as int, dc as int, sym, 1) == count + run_len(
                b,
                ci,
                ri,
                ri0,
                ci0,
                dr as int,
                dc as int,
                sym,
                k as int,
            ),
        ensures
            count == run_len(b, ci, ri, ri0, ci0, dr as int, dc as int, sym, 1),
            count <= rows + cols,
        decreases ri + ci + 1 - k,
    {
        if nr < 0 || nr >= rows as i64 || nc < 0 || nc >= cols as i64 {
            break;
        }
        proof {
            lemma_cell_index(ri, ci, nr as int, nc as int);
        }
        let i = idx(nr as usize, nc as usize, cols);
        if board[i] != sym {
            break;
        }
        proof {
            // an in-grid step along a non-zero direction stays below rows + cols
            assert(k < ri + ci) by (nonlinear_arith)
                requires
                    nr == ri0 + dr * k,
                    nc == ci0 + dc * k,
                    0 <= nr < ri,
                    0 <= nc < ci,
                    0 <= ri0 < ri,
                    0 <= ci0 < ci,
                    -1 <= dr <= 1,
                    -1 <= dc <= 1,
                    dr != 0 || dc != 0,
                    k >= 1,
            ;
            assert(nr + dr == ri0 + dr * (k + 1)) by (nonlinear_arith)
                requires
                    nr == ri0 + dr * k,
            ;
            assert(nc + dc == ci0 + dc * (k + 1)) by (nonlinear_arith)
                requires
                    nc == ci0 + dc * k,
            ;
        }
        count = count + 1;
        k = k + 1;
        nr = nr + dr;
        nc = nc + dc;
    }
    count
}

/// Longest run of `sym` through cell `(r, c)` across all 4 line directions
/// (the cell itself counts as 1).
pub fn max_run(board: &[i8], cols: usize, rows: usize, r: usize, c: usize, sym: i8) -> (n: usize)
    requires
        shaped(board@, cols as int, rows as int),
        in_grid(rows as int, cols as int, r as int, c as int),
    ensures
        n == max_run_spec(board@, cols as int, rows as int, r as int, c as int, sym),
{
    proof {
        lemma_cell_index(rows as int, cols as int, r as int, c as int);
    }
    if board[idx(r, c, cols)] != sym {
        return 0;
    }
    let dirs: [(i64, i64); 4] = [(0, 1), (1, 0), (1, 1), (1, -1)];
    let mut best: usize = 1;
    let mut d: usize = 0;
    while d < 4
        invariant
            shaped(board@, cols as int, rows as int),
            in_grid(rows as int, cols as int, r as int, c as int),
            cell(board@, cols as int, r as int, c as int) == sym,
            dirs@ == seq![(0i64, 1i64), (1i64, 0i64), (1i64, 1i64), (1i64, -1i64)],
            d <= 4,
            1 <= best <= 1 + 2 * (rows + cols),
            best == (if d == 0 {
                1
            } else if d == 1 {
                max2(1, line_through(board@, cols as int, rows as int, r as int, c as int, 0, 1, sym))
            } else if d == 2 {
                max2(
                    max2(1, line_through(board@, cols as int, rows as int, r as int, c as int, 0, 1, sym)),
                    line_through(board@, cols as int, rows as int, r as int, c as int, 1, 0, sym),
                )
            } else if d == 3 {
                max2(
                    max2(
                        max2(1, line_through(board@, cols as int, rows as int, r as int, c as int, 0, 1, sym)),
                        line_through(board@, cols as int, rows as int, r as int, c as int, 1, 0, sym),
                    ),
                    line_through(board@, cols as int, rows as int, r as int, c as int, 1, 1, sym),
                )
            } else {
                max_run_spec(board@, cols as int, rows as int, r as int, c as int, sym)
            }),
        decreases 4 - d,
    {
        let (dr, dc) = dirs[d];
        let fwd = ray(board, cols, rows, r, c, dr, dc, sym);
        let back = ray(board, cols, rows, r, c, -dr, -dc, sym);
        let count = 1 + fwd + back;
        if count > best {
            best = count;
        }
        d += 1;
    }
    best
}

/// Some cell holding a symbol `s >= 0` whose run reaches `len`.
pub open spec fn qualifies(b: Seq<i8>, cols: int, rows: int, r: int, c: int, len: int) -> bool {
    &&& in_grid(rows, cols, r, c)
    &&& cell(b, cols, r, c) >= 0
    &&& max_run_spec(b, cols, rows, r, c, cell(b, cols, r, c)) >= len
}

/// `sym` has a run of at least `len` through `(r, c)`.
pub open spec fn line_at(b: Seq<i8>, cols: int, rows: int, r: int, c: int, sym: i8, len: int) -> bool {
    &&& in_grid(rows, cols, r, c)
    &&& cell(b, cols, r, c) == sym
    &&& max_run_spec(b, cols, rows, r, c, sym) >= len
}

/// `(r, c)` is the first cell in reading order whose run reaches `len`.
pub open spec fn first_qualifying(b: Seq<i8>, cols: int, rows: int, len: int, r: int, c: int) -> bool {
    &&& qualifies(b, cols, rows, r, c, len)
    &&& forall|r2: int, c2: int|
        #![trigger qualifies(b, cols, rows, r2, c2, len)]
        (r2 < r || (r2 == r && c2 < c)) ==> !qualifies(b, cols, rows, r2, c2, len)
}

/// The symbol of the first line of `len`, if any.
pub open spec fn line_symbol_spec(b: Seq<i8>, cols: int, rows: int, len: int) -> Option<i8> {
    if exists|r: int, c: int| first_qualifying(b, cols, rows, len, r, c) {
        let (r, c) = choose|r: int, c: int| first_qualifying(b, cols, rows, len, r, c);
        Some(cell(b, cols, r, c))
    } else {
        None
    }
}

/// The symbol of the first cell (row-major) whose run reaches `len` (a "line of len"), if any.
pub fn line_symbol(board: &[i8], cols: usize, rows: usize, len: usize) -> (res: Option<i8>)
    requires
        shaped(board@, cols as int, rows as int),
    ensures
        res is None <==> !(exists|r: int, c: int| qualifies(board@, cols as int, rows as int, r, c, len as int)),
        res matches Some(s) ==> exists|r: int, c: int|
            {
                &&& qualifies(board@, cols as int, rows as int, r, c, len as int)
                &&& cell(board@, cols as int, r, c) == s
                &&& forall|r2: int, c2: int|
                    #![trigger qualifies(board@, cols as int, rows as int, r2, c2, len as int)]
                    (r2 < r || (r2 == r && c2 < c)) ==> !qualifies(board@, cols as int, rows as int, r2, c2, len as int)
            },
        res == line_symbol_spec(board@, cols as int, rows as int, len as int),
{
    let ghost b = board@;
    let mut r: usize = 0;
    while r < rows
        invariant
            shaped(b, cols as int, rows as int),
            board@ == b,
            r <= rows,
            forall|r2: int, c2: int| #![trigger qualifies(b, cols as int, rows as int, r2, c2, len as int)]
                r2 < r ==> !qualifies(b, cols as int, rows as int, r2, c2, len as int),
        decreases rows - r,
    {
        let mut c: usize = 0;
        while c < cols
            invariant
                shaped(b, cols as int, rows as int),
                board@ == b,
                r < rows,
                c <= cols,
                forall|r2: int, c2: int| #![trigger qualifies(b, cols as int, rows as int, r2, c2, len as int)]
                    (r2 < r || (r2 == r && c2 < c)) ==> !qualifies(b, cols as int, rows as int, r2, c2, len as int),
            decreases cols - c,
        {
            proof {
                lemma_cell_index(rows as int, cols as int, r as int, c as int);
            }
            let s = board[idx(r, c, cols)];
            if s >= 0 && max_run(board, cols, rows, r, c, s) >= len {
                assert(qualifies(b, cols as int, rows as int, r as int, c as int, len as int));
                proof {
                    let (ri, ci) = (r as int, c as int);
                    assert(first_qualifying(b, cols as int, rows as int, len as int, ri, ci));
                    let (r1, c1) = choose|r1: int, c1: int| first_qualifying(b, cols as int, rows as int, len as int, r1, c1);
                    if r1 < ri || (r1 == ri && c1 < ci) {
                        assert(!qualifies(b, cols as int, rows as int, r1, c1, len as int));
                    }
                    if ri < r1 || (ri == r1 && ci < c1) {
                        assert(!qualifies(b, cols as int, rows as int, ri, ci, len as int));
                    }
                }
                return Some(s);
            }
            c += 1;
        }
        r += 1;
    }
    proof {
        if exists|r1: int, c1: int| first_qualifying(b, cols as int, rows as int, len as int, r1, c1) {
            let (r1, c1) = choose|r1: int, c1: int| first_qualifying(b, cols as int, rows as int, len as int, r1, c1);
            assert(qualifies(b, cols as int, rows as int, r1, c1, len as int));
        }
    }
    None
}

/// Does `sym` have a run of at least `len` anywhere?
pub fn has_line(board: &[i8], cols: usize, rows: usize, sym: i8, len: usize) -> (res: bool)
    requires
        shaped(board@, cols as int, rows as int),
    ensures
        res <==> exists|r: int, c: int| line_at(board@, cols as int, rows as int, r, c, sym, len as int),
{
    let ghost b = board@;
    let mut r: usize = 0;
    while r < rows
        invariant
            shaped(b, cols as int, rows as int),
            board@ == b,
            r <= rows,
            forall|r2: int, c2: int| #![trigger line_at(b, cols as int, rows as int, r2, c2, sym, len as int)]
                r2 < r ==> !line_at(b, cols as int, rows as int, r2, c2, sym, len as int),
        decreases rows - r,
    {
        let mut c: usize = 0;
        while c < cols
            invariant
                shaped(b, cols as int, rows as int),
                board@ == b,
                r < rows,
                c <= cols,
                forall|r2: int, c2: int| #![trigger line_at(b, cols as int, rows as int, r2, c2, sym, len as int)]
                    (r2 < r || (r2 == r && c2 < c)) ==> !line_at(b, cols as int, rows as int, r2, c2, sym, len as int),
            decreases cols - c,
        {
            proof {
                lemma_cell_index(rows as int, cols as int, r as int, c as int);
            }
            if board[idx(r, c, cols)] == sym && max_run(board, cols, rows, r, c, sym) >= len {
                assert(line_at(b, cols as int, rows as int, r as int, c as int, sym, len as int));
                return true;
            }
            c += 1;
        }
        r += 1;
    }
    false
}

/// Every cell is occupied.
pub fn is_full(board: &[i8]) -> (res: bool)
    ensures
        res <==> forall|i: int| 0 <= i < board@.len() ==> board@[i] >= 0,
{
    let mut i: usize = 0;
    while i < board.len()
        invariant
            i <= board@.len(),
            forall|j: int| 0 <= j < i ==> board@[j] >= 0,
        decreases board@.len() - i,
    {
        if board[i] < 0 {
            return false;
        }
        i += 1;
    }
    true
}


pub open spec fn abs(x: int) -> int {
    if x < 0 {
        -x
    } else {
        x
    }
}

/// Centrality of `(r, c)`: `(rows - 1) + (cols - 1)` minus the doubled Manhattan distance
/// to the board's centre.
pub open spec fn center_weight(cols: int, rows: int, r: int, c: int) -> int {
    (rows - 1 + cols - 1) - (abs(2 * r - (rows - 1)) + abs(2 * c - (cols - 1)))
}

/// Sum of the centrality of the cells of row `r` among the first `n` columns holding `me`.
pub open spec fn center_row(b: Seq<i8>, cols: int, rows: int, me: i8, r: int, n: int) -> int
    decreases n,
{
    if n <= 0 {
        0
    } else {
        center_row(b, cols, rows, me, r, n - 1) + if cell(b, cols, r, n - 1) == me {
            center_weight(cols, rows, r, n - 1)
        } else {
            0
        }
    }
}

/// Sum of the centrality of the cells of the first `m` rows holding `me`.
pub open spec fn center_total(b: Seq<i8>, cols: int, rows: int, me: i8, m: int) -> int
    decreases m,
{
    if m <= 0 {
        0
    } else {
        center_total(b, cols, rows, me, m - 1) + center_row(b, cols, rows, me, m - 1, cols)
    }
}

/// Tiny center-favoring material score for `me` (keeps solver-carried games from
/// playing randomly in the opening without overriding tactical proven values).
pub fn center_eval(board: &[i8], cols: usize, rows: usize, me: i8) -> (s: i64)
    requires
        shaped(board@, cols as int, rows as int),
        rows * cols * (rows + cols) <= i64::MAX,
    ensures
        s == center_total(board@, cols as int, rows as int, me, rows as int),
        0 <= s <= rows * cols * (rows + cols),
{
    let ghost b = board@;
    let ghost (ri, ci) = (rows as int, cols as int);
    let cr: i64 = rows as i64 - 1;
    let cc: i64 = cols as i64 - 1;
    let mut s: i64 = 0;
    let mut r: usize = 0;
    while r < rows
        invariant
            shaped(b, ci, ri),
            board@ == b,
            ri == rows,
            ci == cols,
            cr == ri - 1,
            cc == ci - 1,
            rows * cols * (rows + cols) <= i64::MAX,
            r <= rows,
            s == center_total(b, ci, ri, me, r as int),
            0 <= s <= (r * ci) * (ri + ci),
        decreases rows - r,
    {
        let mut c: usize = 0;
        let ghost s0 = s;
        while c < cols
            invariant
                shaped(b, ci, ri),
                board@ == b,
                ri == rows,
                ci == cols,
                cr == ri - 1,
                cc == ci - 1,
                rows * cols * (rows + cols) <= i64::MAX,
                r < rows,
                c <= cols,
                s0 == center_total(b, ci, ri, me, r as int),
                s == s0 + center_row(b, ci, ri, me, r as int, c as int),
                0 <= s <= (r * ci + c) * (ri + ci),
            decreases cols - c,
        {
            proof {
                lemma_cell_index(ri, ci, r as int, c as int);
                assert((r * ci + c) * (ri + ci) + (ri + ci) == (r * ci + c + 1) * (ri + ci)) by (nonlinear_arith);
                assert((r * ci + c + 1) * (ri + ci) <= ri * ci * (ri + ci)) by (nonlinear_arith)
                    requires
                        r < ri,
                        c < ci,
                        r >= 0,
                        c >= 0,
                ;
            }
            if board[idx(r, c, cols)] == me {
                let dr: i64 = if 2 * r as i64 - cr < 0 { cr - 2 * r as i64 } else { 2 * r as i64 - cr };
                let dc: i64 = if 2 * c as i64 - cc < 0 { cc - 2 * c as i64 } else { 2 * c as i64 - cc };
                s += (cr + cc) - (dr + dc);
            }
            c += 1;
        }
        proof {
            assert((r * ci + ci) == (r + 1) * ci) by (nonlinear_arith);
        }
        r += 1;
    }
    s
}


/// Row step of the `d`-th line direction: right, down, down-right, down-left.
pub open spec fn dir_r(d: int) -> int {
    if d == 0 {
        0
    } else {
        1
    }
}

/// Column step of the `d`-th line direction: right, down, down-right, down-left.
pub open spec fn dir_c(d: int) -> int {
    if d == 0 {
        1
    } else if d == 1 {
        0
    } else if d == 2 {
        1
    } else {
        -1
    }
}

/// The `s`-th cell of the window starting at `(r, c)` along `(dr, dc)`.
pub open spec fn wcell(b: Seq<i8>, cols: int, r: int, c: int, dr: int, dc: int, s: int) -> i8 {
    cell(b, cols, r + dr * s, c + dc * s)
}

/// A window of `len` cells from `(r, c)` along `(dr, dc)` lies on the board.
pub open spec fn window_fits(rows: int, cols: int, r: int, c: int, dr: int, dc: int, len: int) -> bool {
    in_grid(rows, cols, r, c) && in_grid(rows, cols, r + dr * (len - 1), c + dc * (len - 1))
}

/// Number of the first `n` window cells equal to `v`.
pub open spec fn count_eq(b: Seq<i8>, cols: int, r: int, c: int, dr: int, dc: int, v: i8, n: int) -> int
    decreases n,
{
    if n <= 0 {
        0
    } else {
        count_eq(b, cols, r, c, dr, dc, v, n - 1) + if wcell(b, cols, r, c, dr, dc, n - 1) == v {
            1int
        } else {
            0
        }
    }
}

/// Number of the first `n` window cells that are occupied.
pub open spec fn count_occupied(b: Seq<i8>, cols: int, r: int, c: int, dr: int, dc: int, n: int) -> int
    decreases n,
{
    if n <= 0 {
        0
    } else {
        count_occupied(b, cols, r, c, dr, dc, n - 1) + if wcell(b, cols, r, c, dr, dc, n - 1) >= 0 {
            1int
        } else {
            0
        }
    }
}

/// One of the first `n` window cells holds a symbol other than `me`.
pub open spec fn window_blocked(b: Seq<i8>, cols: int, r: int, c: int, dr: int, dc: int, me: i8, n: int) -> bool {
    exists|s: int|
        0 <= s < n && #[trigger] wcell(b, cols, r, c, dr, dc, s) >= 0 && wcell(b, cols, r, c, dr, dc, s) != me
}

/// Two of the first `n` window cells hold different symbols.
pub open spec fn window_mixed(b: Seq<i8>, cols: int, r: int, c: int, dr: int, dc: int, n: int) -> bool {
    exists|i: int, j: int|
        0 <= i < n && 0 <= j < n && #[trigger] wcell(b, cols, r, c, dr, dc, i) >= 0 && #[trigger] wcell(
            b,
            cols,
            r,
            c,
            dr,
            dc,
            j,
        ) >= 0 && wcell(b, cols, r, c, dr, dc, i) != wcell(b, cols, r, c, dr, dc, j)
}

/// Score of one window for `me`: the square of the number of `me` cells when the window
/// fits, holds no other symbol and holds at least one `me`.
pub open spec fn window_score(b: Seq<i8>, cols: int, rows: int, r: int, c: int, dr: int, dc: int, me: i8, len: int) -> int {
    if !window_fits(rows, cols, r, c, dr, dc, len) || window_blocked(b, cols, r, c, dr, dc, me, len) {
        0
    } else {
        let m = count_eq(b, cols, r, c, dr, dc, me, len);
        if m > 0 {
            m * m
        } else {
            0
        }
    }
}

/// Threat of one window: the square of its number of occupied cells when the window fits
/// and all of them hold one and the same symbol.
pub open spec fn threat_score(b: Seq<i8>, cols: int, rows: int, r: int, c: int, dr: int, dc: int, len: int) -> int {
    if !window_fits(rows, cols, r, c, dr, dc, len) || window_mixed(b, cols, r, c, dr, dc, len) {
        0
    } else {
        let m = count_occupied(b, cols, r, c, dr, dc, len);
        if m > 0 {
            m * m
        } else {
            0
        }
    }
}

pub open spec fn sum_dirs(f: spec_fn(int, int, int) -> int, r: int, c: int, n: int) -> int
    decreases n,
{
    if n <= 0 {
        0
    } else {
        sum_dirs(f, r, c, n - 1) + f(r, c, n - 1)
    }
}

pub open spec fn sum_row(f: spec_fn(int, int, int) -> int, r: int, n: int) -> int
    decreases n,
{
    if n <= 0 {
        0
    } else {
        sum_row(f, r, n - 1) + sum_dirs(f, r, n - 1, 4)
    }
}

/// Sum of `f(r, c, d)` over the first `m` rows, every column and the four directions.
pub open spec fn sum_grid(f: spec_fn(int, int, int) -> int, cols: int, m: int) -> int
    decreases m,
{
    if m <= 0 {
        0
    } else {
        sum_grid(f, cols, m - 1) + sum_row(f, m - 1, cols)
    }
}

pub open spec fn window_scores(b: Seq<i8>, cols: int, rows: int, me: i8, len: int) -> spec_fn(int, int, int) -> int {
    |r: int, c: int, d: int| window_score(b, cols, rows, r, c, dir_r(d), dir_c(d), me, len)
}

pub open spec fn threat_scores(b: Seq<i8>, cols: int, rows: int, len: int) -> spec_fn(int, int, int) -> int {
    |r: int, c: int, d: int| threat_score(b, cols, rows, r, c, dir_r(d), dir_c(d), len)
}

proof fn lemma_window_cell(rows: int, cols: int, r: int, c: int, dr: int, dc: int, len: int, s: int)
    requires
        window_fits(rows, cols, r, c, dr, dc, len),
        0 <= dr <= 1,
        -1 <= dc <= 1,
        0 <= s < len,
    ensures
        in_grid(rows, cols, r + dr * s, c + dc * s),
        0 <= (r + dr * s) * cols + (c + dc * s) < rows * cols,
{
    assert(in_grid(rows, cols, r + dr * s, c + dc * s)) by (nonlinear_arith)
        requires
            in_grid(rows, cols, r, c),
            in_grid(rows, cols, r + dr * (len - 1), c + dc * (len - 1)),
            0 <= dr <= 1,
            -1 <= dc <= 1,
            0 <= s < len,
    ;
    lemma_cell_index(rows, cols, r + dr * s, c + dc * s);
}

proof fn lemma_count_eq_bound(b: Seq<i8>, cols: int, r: int, c: int, dr: int, dc: int, v: i8, n: int)
    ensures
        0 <= count_eq(b, cols, r, c, dr, dc, v, n) <= if n < 0 { 0 } else { n },
    decreases n,
{
    if n > 0 {
        lemma_count_eq_bound(b, cols, r, c, dr, dc, v, n - 1);
    }
}

proof fn lemma_count_occupied_bound(b: Seq<i8>, cols: int, r: int, c: int, dr: int, dc: int, n: int)
    ensures
        0 <= count_occupied(b, cols, r, c, dr, dc, n) <= if n < 0 { 0 } else { n },
    decreases n,
{
    if n > 0 {
        lemma_count_occupied_bound(b, cols, r, c, dr, dc, n - 1);
    }
}

/// `d * k` for a unit step `d`.
fn step(d: i64, k: i64) -> (p: i64)
    requires
        -1 <= d <= 1,
        -0x3fff_ffff <= k <= 0x3fff_ffff,
    ensures
        p == d * k,
        -0x3fff_ffff <= p <= 0x3fff_ffff,
{
    if d == 0 {
        assert(d * k == 0) by (nonlinear_arith)
            requires
                d == 0,
        ;
        0
    } else if d > 0 {
        assert(d * k == k) by (nonlinear_arith)
            requires
                d == 1,
        ;
        k
    } else {
        assert(d * k == -k) by (nonlinear_arith)
            requires
                d == -1,
        ;
        -k
    }
}

/// Score of the window at `(r, c)` along `(dr, dc)` for `me`.
fn window_mine(board: &[i8], cols: usize, rows: usize, r: usize, c: usize, dr: i64, dc: i64, me: i8, win_len: usize) -> (sc: i64)
    requires
        shaped(board@, cols as int, rows as int),
        in_grid(rows as int, cols as int, r as int, c as int),
        0 <= dr <= 1,
        -1 <= dc <= 1,
        win_len <= 0x3fff_ffff,
    ensures
        sc == window_score(board@, cols as int, rows as int, r as int, c as int, dr as int, dc as int, me, win_len as int),
        0 <= sc <= win_len * win_len,
{
    let ghost b = board@;
    let ghost (ri, ci, r0, c0, dri, dci, n) = (rows as int, cols as int, r as int, c as int, dr as int, dc as int, win_len as int);
    let span: i64 = win_len as i64 - 1;
    let er: i64 = r as i64 + step(dr, span);
    let ec: i64 = c as i64 + step(dc, span);
    if er < 0 || er >= rows as i64 || ec < 0 || ec >= cols as i64 {
        return 0;
    }
    assert(window_fits(ri, ci, r0, c0, dri, dci, n));
    let mut mine: i64 = 0;
    let mut s: usize = 0;
    while s < win_len
        invariant
            shaped(b, ci, ri),
            board@ == b,
            ri == rows,
            ci == cols,
            r0 == r,
            c0 == c,
            dri == dr,
            dci == dc,
            n == win_len,
            0 <= dr <= 1,
            -1 <= dc <= 1,
            win_len <= 0x3fff_ffff,
            window_fits(ri, ci, r0, c0, dri, dci, n),
            s <= win_len,
            mine == count_eq(b, ci, r0, c0, dri, dci, me, s as int),
            !window_blocked(b, ci, r0, c0, dri, dci, me, s as int),
        decreases win_len - s,
    {
        proof {
            lemma_window_cell(ri, ci, r0, c0, dri, dci, n, s as int);
            lemma_count_eq_bound(b, ci, r0, c0, dri, dci, me, s as int);
        }
        let pr = (r as i64 + step(dr, s as i64)) as usize;
        let pc = (c as i64 + step(dc, s as i64)) as usize;
        let v = board[idx(pr, pc, cols)];
        assert(v == wcell(b, ci, r0, c0, dri, dci, s as int));
        if v == me {
            mine += 1;
        } else if v >= 0 {
            assert(window_blocked(b, ci, r0, c0, dri, dci, me, n));
            return 0;
        }
        s += 1;
    }
    proof {
        lemma_count_eq_bound(b, ci, r0, c0, dri, dci, me, n);
    }
    if mine > 0 {
        proof {
            assert(mine * mine <= n * n && n * n <= 0x1000_0000_0000_0000) by (nonlinear_arith)
                requires
                    0 <= mine <= n,
                    n <= 0x3fff_ffff,
            ;
        }
        mine * mine
    } else {
        0
    }
}

/// Threat of the window at `(r, c)` along `(dr, dc)`.
fn window_threat(board: &[i8], cols: usize, rows: usize, r: usize, c: usize, dr: i64, dc: i64, win_len: usize) -> (sc: i64)
    requires
        shaped(board@, cols as int, rows as int),
        in_grid(rows as int, cols as int, r as int, c as int),
        0 <= dr <= 1,
        -1 <= dc <= 1,
        win_len <= 0x3fff_ffff,
    ensures
        sc == threat_score(board@, cols as int, rows as int, r as int, c as int, dr as int, dc as int, win_len as int),
        0 <= sc <= win_len * win_len,
{
    let ghost b = board@;
    let ghost (ri, ci, r0, c0, dri, dci, n) = (rows as int, cols as int, r as int, c as int, dr as int, dc as int, win_len as int);
    let span: i64 = win_len as i64 - 1;
    let er: i64 = r as i64 + step(dr, span);
    let ec: i64 = c as i64 + step(dc, span);
    if er < 0 || er >= rows as i64 || ec < 0 || ec >= cols as i64 {
        return 0;
    }
    assert(window_fits(ri, ci, r0, c0, dri, dci, n));
    let mut sym: i8 = -1;
    let mut count: i64 = 0;
    let mut s: usize = 0;
    let ghost mut first: int = 0;
    while s < win_len
        invariant
            shaped(b, ci, ri),
            board@ == b,
            ri == rows,
            ci == cols,
            r0 == r,
            c0 == c,
            dri == dr,
            dci == dc,
            n == win_len,
            0 <= dr <= 1,
            -1 <= dc <= 1,
            win_len <= 0x3fff_ffff,
            window_fits(ri, ci, r0, c0, dri, dci, n),
            s <= win_len,
            count == count_occupied(b, ci, r0, c0, dri, dci, s as int),
            !window_mixed(b, ci, r0, c0, dri, dci, s as int),
            sym < 0 ==> count == 0,
            sym >= 0 ==> {
                &&& 0 <= first < s
                &&& wcell(b, ci, r0, c0, dri, dci, first) == sym
                &&& forall|i: int| 0 <= i < s && #[trigger] wcell(b, ci, r0, c0, dri, dci, i) >= 0 ==> wcell(b, ci, r0, c0, dri, dci, i) == sym
            },
            sym < 0 ==> forall|i: int| 0 <= i < s ==> #[trigger] wcell(b, ci, r0, c0, dri, dci, i) < 0,
        decreases win_len - s,
    {
        proof {
            lemma_window_cell(ri, ci, r0, c0, dri, dci, n, s as int);
            lemma_count_occupied_bound(b, ci, r0, c0, dri, dci, s as int);
        }
        let pr = (r as i64 + step(dr, s as i64)) as usize;
        let pc = (c as i64 + step(dc, s as i64)) as usize;
        let v = board[idx(pr, pc, cols)];
        assert(v == wcell(b, ci, r0, c0, dri, dci, s as int));
        if v < 0 {
            s += 1;
            continue;
        }
        if sym < 0 {
            sym = v;
            count = 1;
            proof {
                first = s as int;
            }
        } else if v == sym {
            count += 1;
        } else {
            assert(wcell(b, ci, r0, c0, dri, dci, first) >= 0);
            assert(window_mixed(b, ci, r0, c0, dri, dci, n));
            return 0;
        }
        s += 1;
    }
    proof {
        lemma_count_occupied_bound(b, ci, r0, c0, dri, dci, n);
    }
    if count > 0 {
        proof {
            assert(count * count <= n * n && n * n <= 0x1000_0000_0000_0000) by (nonlinear_arith)
                requires
                    0 <= count <= n,
                    n <= 0x3fff_ffff,
            ;
        }
        count * count
    } else {
        0
    }
}


/// Heuristic: sum of squared occupancy over `win_len`-windows that contain only
/// `me` (and empties). Higher = closer to completing a line for `me`.
pub fn window_eval(board: &[i8], cols: usize, rows: usize, me: i8, win_len: usize) -> (score: i64)
    requires
        shaped(board@, cols as int, rows as int),
        win_len <= 0x3fff_ffff,
        4 * rows * cols * (win_len * win_len) <= i64::MAX,
    ensures
        score == sum_grid(window_scores(board@, cols as int, rows as int, me, win_len as int), cols as int, rows as int),
        0 <= score <= 4 * rows * cols * (win_len * win_len),
{
    let ghost b = board@;
    let ghost f = window_scores(b, cols as int, rows as int, me, win_len as int);
    let ghost l2 = win_len * win_len;
    let dirs: [(i64, i64); 4] = [(0, 1), (1, 0), (1, 1), (1, -1)];
    let mut score: i64 = 0;
    let mut r: usize = 0;
    while r < rows
        invariant
            shaped(b, cols as int, rows as int),
            board@ == b,
            f == window_scores(b, cols as int, rows as int, me, win_len as int),
            l2 == win_len * win_len,
            win_len <= 0x3fff_ffff,
            4 * rows * cols * l2 <= i64::MAX,
            dirs@ == seq![(0i64, 1i64), (1i64, 0i64), (1i64, 1i64), (1i64, -1i64)],
            r <= rows,
            score == sum_grid(f, cols as int, r as int),
            0 <= score <= (4 * (r * cols)) * l2,
        decreases rows - r,
    {
        let mut c: usize = 0;
        let ghost base_r = score;
        while c < cols
            invariant
                shaped(b, cols as int, rows as int),
                board@ == b,
                f == window_scores(b, cols as int, rows as int, me, win_len as int),
                l2 == win_len * win_len,
                win_len <= 0x3fff_ffff,
                4 * rows * cols * l2 <= i64::MAX,
                dirs@ == seq![(0i64, 1i64), (1i64, 0i64), (1i64, 1i64), (1i64, -1i64)],
                r < rows,
                c <= cols,
                base_r == sum_grid(f, cols as int, r as int),
                score == base_r + sum_row(f, r as int, c as int),
                0 <= score <= (4 * (r * cols + c)) * l2,
            decreases cols - c,
        {
            let mut d: usize = 0;
            let ghost base_c = score;
            while d < 4
                invariant
                    shaped(b, cols as int, rows as int),
                    board@ == b,
                    f == window_scores(b, cols as int, rows as int, me, win_len as int),
                    l2 == win_len * win_len,
                    win_len <= 0x3fff_ffff,
                    4 * rows * cols * l2 <= i64::MAX,
                    dirs@ == seq![(0i64, 1i64), (1i64, 0i64), (1i64, 1i64), (1i64, -1i64)],
                    r < rows,
                    c < cols,
                    d <= 4,
                    base_c == base_r + sum_row(f, r as int, c as int),
                    base_r == sum_grid(f, cols as int, r as int),
                    score == base_c + sum_dirs(f, r as int, c as int, d as int),
                    0 <= score <= (4 * (r * cols + c) + d) * l2,
                decreases 4 - d,
            {
                let (dr, dc) = dirs[d];
                assert(dr == dir_r(d as int) && dc == dir_c(d as int));
                let w = window_mine(board, cols, rows, r, c, dr, dc, me, win_len);
                proof {
                    assert((4 * (r * cols + c) + d) * l2 + l2 == (4 * (r * cols + c) + d + 1) * l2) by (nonlinear_arith);
                    assert((4 * (r * cols + c) + d + 1) * l2 <= 4 * rows * cols * l2) by (nonlinear_arith)
                        requires
                            r < rows,
                            c < cols,
                            d < 4,
                            l2 >= 0,
                    ;
                }
                score += w;
                d += 1;
            }
            proof {
                assert(4 * (r * cols + c) + 4 == 4 * (r * cols + c + 1));
            }
            c += 1;
        }
        proof {
            assert(r * cols + cols == (r + 1) * cols) by (nonlinear_arith);
        }
        r += 1;
    }
    proof {
        assert((4 * (rows * cols)) * l2 == 4 * rows * cols * (win_len * win_len)) by (nonlinear_arith)
            requires
                l2 == win_len * win_len,
        ;
    }
    score
}

/// Order's "threat": squared progress of the best single symbol in each
/// `win_len`-window that contains exactly one symbol type. Higher = closer to a
/// line of *any* symbol (good for Order, bad for Chaos).
pub fn line_threat(board: &[i8], cols: usize, rows: usize, win_len: usize) -> (score: i64)
    requires
        shaped(board@, cols as int, rows as int),
        win_len <= 0x3fff_ffff,
        4 * rows * cols * (win_len * win_len) <= i64::MAX,
    ensures
        score == sum_grid(threat_scores(board@, cols as int, rows as int, win_len as int), cols as int, rows as int),
        0 <= score <= 4 * rows * cols * (win_len * win_len),
{
    let ghost b = board@;
    let ghost f = threat_scores(b, cols as int, rows as int, win_len as int);
    let ghost l2 = win_len * win_len;
    let dirs: [(i64, i64); 4] = [(0, 1), (1, 0), (1, 1), (1, -1)];
    let mut score: i64 = 0;
    let mut r: usize = 0;
    while r < rows
        invariant
            shaped(b, cols as int, rows as int),
            board@ == b,
            f == threat_scores(b, cols as int, rows as int, win_len as int),
            l2 == win_len * win_len,
            win_len <= 0x3fff_ffff,
            4 * rows * cols * l2 <= i64::MAX,
            dirs@ == seq![(0i64, 1i64), (1i64, 0i64), (1i64, 1i64), (1i64, -1i64)],
            r <= rows,
            score == sum_grid(f, cols as int, r as int),
            0 <= score <= (4 * (r * cols)) * l2,
        decreases rows - r,
    {
        let mut c: usize = 0;
        let ghost base_r = score;
        while c < cols
            invariant
                shaped(b, cols as int, rows as int),
                board@ == b,
                f == threat_scores(b, cols as int, rows as int, win_len as int),
                l2 == win_len * win_len,
                win_len <= 0x3fff_ffff,
                4 * rows * cols * l2 <= i64::MAX,
                dirs@ == seq![(0i64, 1i64), (1i64, 0i64), (1i64, 1i64), (1i64, -1i64)],
                r < rows,
                c <= cols,
                base_r == sum_grid(f, cols as int, r as int),
                score == base_r + sum_row(f, r as int, c as int),
                0 <= score <= (4 * (r * cols + c)) * l2,
            decreases cols - c,
        {
            let mut d: usize = 0;
            let ghost base_c = score;
            while d < 4
                invariant
                    shaped(b, cols as int, rows as int),
                    board@ == b,
                    f == threat_scores(b, cols as int, rows as int, win_len as int),
                    l2 == win_len * win_len,
                    win_len <= 0x3fff_ffff,
                    4 * rows * cols * l2 <= i64::MAX,
                    dirs@ == seq![(0i64, 1i64), (1i64, 0i64), (1i64, 1i64), (1i64, -1i64)],
                    r < rows,
                    c < cols,
                    d <= 4,
                    base_c == base_r + sum_row(f, r as int, c as int),
                    base_r == sum_grid(f, cols as int, r as int),
                    score == base_c + sum_dirs(f, r as int, c as int, d as int),
                    0 <= score <= (4 * (r * cols + c) + d) * l2,
                decreases 4 - d,
            {
                let (dr, dc) = dirs[d];
                assert(dr == dir_r(d as int) && dc == dir_c(d as int));
                let w = window_threat(board, cols, rows, r, c, dr, dc, win_len);
                proof {
                    assert((4 * (r * cols + c) + d) * l2 + l2 == (4 * (r * cols + c) + d + 1) * l2) by (nonlinear_arith);
                    assert((4 * (r * cols + c) + d + 1) * l2 <= 4 * rows * cols * l2) by (nonlinear_arith)
                        requires
                            r < rows,
                            c < cols,
                            d < 4,
                            l2 >= 0,
                    ;
                }
                score += w;
                d += 1;
            }
            proof {
                assert(4 * (r * cols + c) + 4 == 4 * (r * cols + c + 1));
            }
            c += 1;
        }
        proof {
            assert(r * cols + cols == (r + 1) * cols) by (nonlinear_arith);
        }
        r += 1;
    }
    proof {
        assert((4 * (rows * cols)) * l2 == 4 * rows * cols * (win_len * win_len)) by (nonlinear_arith)
            requires
                l2 == win_len * win_len,
        ;
    }
    score
}


/// `(r, c)` is on the board and holds `sym`.
pub open spec fn occ(b: Seq<i8>, cols: int, rows: int, sym: i8, r: int, c: int) -> bool {
    in_grid(rows, cols, r, c) && cell(b, cols, r, c) == sym
}

/// The distinct cells `(r1, c1)` and `(r2, c2)` of `sym` are one side of a square whose
/// other two corners (on either side of that edge) also hold `sym`.
pub open spec fn square_edge(b: Seq<i8>, cols: int, rows: int, sym: i8, r1: int, c1: int, r2: int, c2: int) -> bool {
    let dr = r2 - r1;
    let dc = c2 - c1;
    &&& occ(b, cols, rows, sym, r1, c1)
    &&& occ(b, cols, rows, sym, r2, c2)
    &&& (r1 != r2 || c1 != c2)
    &&& ((occ(b, cols, rows, sym, r1 - dc, c1 + dr) && occ(b, cols, rows, sym, r2 - dc, c2 + dr)) || (occ(
        b,
        cols,
        rows,
        sym,
        r1 + dc,
        c1 - dr,
    ) && occ(b, cols, rows, sym, r2 + dc, c2 - dr)))
}

fn occ_at(board: &[i8], cols: usize, rows: usize, sym: i8, r: i64, c: i64) -> (res: bool)
    requires
        shaped(board@, cols as int, rows as int),
    ensures
        res == occ(board@, cols as int, rows as int, sym, r as int, c as int),
{
    if r < 0 || r >= rows as i64 || c < 0 || c >= cols as i64 {
        return false;
    }
    proof {
        lemma_cell_index(rows as int, cols as int, r as int, c as int);
    }
    board[idx(r as usize, c as usize, cols)] == sym
}

/// Does some cell of `sym` form a square side with `(r1, c1)`?
fn square_from(board: &[i8], cols: usize, rows: usize, sym: i8, r1: usize, c1: usize) -> (res: bool)
    requires
        shaped(board@, cols as int, rows as int),
        occ(board@, cols as int, rows as int, sym, r1 as int, c1 as int),
    ensures
        res <==> exists|r2: int, c2: int| square_edge(board@, cols as int, rows as int, sym, r1 as int, c1 as int, r2, c2),
{
    let ghost b = board@;
    let mut r2: usize = 0;
    while r2 < rows
        invariant
            shaped(b, cols as int, rows as int),
            board@ == b,
            occ(b, cols as int, rows as int, sym, r1 as int, c1 as int),
            r2 <= rows,
            forall|x: int, y: int| #![trigger square_edge(b, cols as int, rows as int, sym, r1 as int, c1 as int, x, y)]
                x < r2 ==> !square_edge(b, cols as int, rows as int, sym, r1 as int, c1 as int, x, y),
        decreases rows - r2,
    {
        let mut c2: usize = 0;
        while c2 < cols
            invariant
                shaped(b, cols as int, rows as int),
                board@ == b,
                occ(b, cols as int, rows as int, sym, r1 as int, c1 as int),
                r2 < rows,
                c2 <= cols,
                forall|x: int, y: int| #![trigger square_edge(b, cols as int, rows as int, sym, r1 as int, c1 as int, x, y)]
                    (x < r2 || (x == r2 && y < c2)) ==> !square_edge(b, cols as int, rows as int, sym, r1 as int, c1 as int, x, y),
            decreases cols - c2,
        {
            let (a1, b1, a2, b2) = (r1 as i64, c1 as i64, r2 as i64, c2 as i64);
            if (a1 != a2 || b1 != b2) && occ_at(board, cols, rows, sym, a2, b2) {
                let (dr, dc) = (a2 - a1, b2 - b1);
                if (occ_at(board, cols, rows, sym, a1 - dc, b1 + dr) && occ_at(board, cols, rows, sym, a2 - dc, b2 + dr))
                    || (occ_at(board, cols, rows, sym, a1 + dc, b1 - dr) && occ_at(board, cols, rows, sym, a2 + dc, b2 - dr)) {
                    assert(square_edge(b, cols as int, rows as int, sym, r1 as int, c1 as int, r2 as int, c2 as int));
                    return true;
                }
            }
            c2 += 1;
        }
        r2 += 1;
    }
    false
}

/// Do any 4 cells of `sym` form the corners of a square (any size/orientation)?
pub fn has_square(board: &[i8], cols: usize, rows: usize, sym: i8) -> (res: bool)
    requires
        shaped(board@, cols as int, rows as int),
    ensures
        res <==> exists|r1: int, c1: int, r2: int, c2: int| square_edge(board@, cols as int, rows as int, sym, r1, c1, r2, c2),
{
    let ghost b = board@;
    let mut r1: usize = 0;
    while r1 < rows
        invariant
            shaped(b, cols as int, rows as int),
            board@ == b,
            r1 <= rows,
            forall|x1: int, y1: int, x2: int, y2: int| #![trigger square_edge(b, cols as int, rows as int, sym, x1, y1, x2, y2)]
                x1 < r1 ==> !square_edge(b, cols as int, rows as int, sym, x1, y1, x2, y2),
        decreases rows - r1,
    {
        let mut c1: usize = 0;
        while c1 < cols
            invariant
                shaped(b, cols as int, rows as int),
                board@ == b,
                r1 < rows,
                c1 <= cols,
                forall|x1: int, y1: int, x2: int, y2: int| #![trigger square_edge(b, cols as int, rows as int, sym, x1, y1, x2, y2)]
                    (x1 < r1 || (x1 == r1 && y1 < c1)) ==> !square_edge(b, cols as int, rows as int, sym, x1, y1, x2, y2),
            decreases cols - c1,
        {
            if occ_at(board, cols, rows, sym, r1 as i64, c1 as i64) {
                if square_from(board, cols, rows, sym, r1, c1) {
                    return true;
                }
            }
            c1 += 1;
        }
        r1 += 1;
    }
    false
}


/// With every occupied window cell equal to `v >= 0`, the occupied cells are the cells of `v`.
proof fn lemma_count_single(b: Seq<i8>, cols: int, r: int, c: int, dr: int, dc: int, v: i8, n: int)
    requires
        v >= 0,
        forall|s: int| 0 <= s < n && #[trigger] wcell(b, cols, r, c, dr, dc, s) >= 0 ==> wcell(b, cols, r, c, dr, dc, s) == v,
    ensures
        count_occupied(b, cols, r, c, dr, dc, n) == count_eq(b, cols, r, c, dr, dc, v, n),
    decreases n,
{
    if n > 0 {
        lemma_count_single(b, cols, r, c, dr, dc, v, n - 1);
    }
}

/// On a board of empties, zeros and ones, the threat of a window is the sum of its
/// scores for the two symbols.
proof fn lemma_threat_window(b: Seq<i8>, cols: int, rows: int, r: int, c: int, d: int, len: int)
    requires
        shaped(b, cols, rows),
        forall|i: int| 0 <= i < b.len() ==> -1 <= #[trigger] b[i] <= 1,
        0 <= d < 4,
    ensures
        threat_score(b, cols, rows, r, c, dir_r(d), dir_c(d), len) == window_score(b, cols, rows, r, c, dir_r(d), dir_c(d), 0, len)
            + window_score(b, cols, rows, r, c, dir_r(d), dir_c(d), 1, len),
{
    let (dr, dc) = (dir_r(d), dir_c(d));
    if window_fits(rows, cols, r, c, dr, dc, len) {
        assert forall|s: int| 0 <= s < len implies -1 <= #[trigger] wcell(b, cols, r, c, dr, dc, s) <= 1 by {
            lemma_window_cell(rows, cols, r, c, dr, dc, len, s);
        }
        if window_mixed(b, cols, r, c, dr, dc, len) {
            let (i, j) = choose|i: int, j: int|
                0 <= i < len && 0 <= j < len && #[trigger] wcell(b, cols, r, c, dr, dc, i) >= 0 && #[trigger] wcell(
                    b,
                    cols,
                    r,
                    c,
                    dr,
                    dc,
                    j,
                ) >= 0 && wcell(b, cols, r, c, dr, dc, i) != wcell(b, cols, r, c, dr, dc, j);
            assert(window_blocked(b, cols, r, c, dr, dc, 0, len));
            assert(window_blocked(b, cols, r, c, dr, dc, 1, len));
        } else if exists|s: int| 0 <= s < len && #[trigger] wcell(b, cols, r, c, dr, dc, s) >= 0 {
            let s0 = choose|s: int| 0 <= s < len && #[trigger] wcell(b, cols, r, c, dr, dc, s) >= 0;
            let v = wcell(b, cols, r, c, dr, dc, s0);
            assert forall|s: int| 0 <= s < len && #[trigger] wcell(b, cols, r, c, dr, dc, s) >= 0 implies wcell(
                b,
                cols,
                r,
                c,
                dr,
                dc,
                s,
            ) == v by {
                if wcell(b, cols, r, c, dr, dc, s) != v {
                    assert(window_mixed(b, cols, r, c, dr, dc, len));
                }
            }
            lemma_count_single(b, cols, r, c, dr, dc, v, len);
            lemma_count_occupied_bound(b, cols, r, c, dr, dc, s0);
            assert(count_occupied(b, cols, r, c, dr, dc, len) >= 1) by {
                lemma_count_occupied_prefix(b, cols, r, c, dr, dc, s0, len);
            }
            assert(!window_blocked(b, cols, r, c, dr, dc, v, len));
            assert(window_blocked(b, cols, r, c, dr, dc, (1 - v) as i8, len));
        } else {
            lemma_count_single(b, cols, r, c, dr, dc, 0, len);
            lemma_count_single(b, cols, r, c, dr, dc, 1, len);
            lemma_count_occupied_zero(b, cols, r, c, dr, dc, len);
        }
    }
}

/// A window cell at `s` that is occupied counts among the first `n > s`.
proof fn lemma_count_occupied_prefix(b: Seq<i8>, cols: int, r: int, c: int, dr: int, dc: int, s: int, n: int)
    requires
        0 <= s < n,
        wcell(b, cols, r, c, dr, dc, s) >= 0,
    ensures
        count_occupied(b, cols, r, c, dr, dc, n) >= 1,
    decreases n,
{
    lemma_count_occupied_bound(b, cols, r, c, dr, dc, n - 1);
    if s < n - 1 {
        lemma_count_occupied_prefix(b, cols, r, c, dr, dc, s, n - 1);
    }
}

/// No occupied cell among the first `n`: none is counted.
proof fn lemma_count_occupied_zero(b: Seq<i8>, cols: int, r: int, c: int, dr: int, dc: int, n: int)
    requires
        forall|s: int| 0 <= s < n ==> #[trigger] wcell(b, cols, r, c, dr, dc, s) < 0,
    ensures
        count_occupied(b, cols, r, c, dr, dc, n) == 0,
    decreases n,
{
    if n > 0 {
        lemma_count_occupied_zero(b, cols, r, c, dr, dc, n - 1);
    }
}

proof fn lemma_sum_dirs_add(f: spec_fn(int, int, int) -> int, g: spec_fn(int, int, int) -> int, h: spec_fn(int, int, int) -> int, r: int, c: int, n: int)
    requires
        n <= 4,
        forall|d: int| 0 <= d < 4 ==> #[trigger] h(r, c, d) == f(r, c, d) + g(r, c, d),
    ensures
        sum_dirs(h, r, c, n) == sum_dirs(f, r, c, n) + sum_dirs(g, r, c, n),
    decreases n,
{
    if n > 0 {
        lemma_sum_dirs_add(f, g, h, r, c, n - 1);
    }
}

proof fn lemma_sum_row_add(f: spec_fn(int, int, int) -> int, g: spec_fn(int, int, int) -> int, h: spec_fn(int, int, int) -> int, r: int, n: int)
    requires
        forall|c: int, d: int| 0 <= d < 4 ==> #[trigger] h(r, c, d) == f(r, c, d) + g(r, c, d),
    ensures
        sum_row(h, r, n) == sum_row(f, r, n) + sum_row(g, r, n),
    decreases n,
{
    if n > 0 {
        lemma_sum_row_add(f, g, h, r, n - 1);
        lemma_sum_dirs_add(f, g, h, r, n - 1, 4);
    }
}

proof fn lemma_sum_grid_add(f: spec_fn(int, int, int) -> int, g: spec_fn(int, int, int) -> int, h: spec_fn(int, int, int) -> int, cols: int, m: int)
    requires
        forall|r: int, c: int, d: int| 0 <= d < 4 ==> #[trigger] h(r, c, d) == f(r, c, d) + g(r, c, d),
    ensures
        sum_grid(h, cols, m) == sum_grid(f, cols, m) + sum_grid(g, cols, m),
    decreases m,
{
    if m > 0 {
        lemma_sum_grid_add(f, g, h, cols, m - 1);
        lemma_sum_row_add(f, g, h, m - 1, cols);
    }
}

/// On a board that holds only empties and the symbols `0` and `1`, the threat of
/// `line_threat` is `window_eval` for `0` plus `window_eval` for `1`.
pub proof fn lemma_threat_is_both_windows(b: Seq<i8>, cols: int, rows: int, len: int)
    requires
        shaped(b, cols, rows),
        forall|i: int| 0 <= i < b.len() ==> -1 <= #[trigger] b[i] <= 1,
    ensures
        sum_grid(threat_scores(b, cols, rows, len), cols, rows) == sum_grid(window_scores(b, cols, rows, 0, len), cols, rows)
            + sum_grid(window_scores(b, cols, rows, 1, len), cols, rows),
{
    let f = window_scores(b, cols, rows, 0, len);
    let g = window_scores(b, cols, rows, 1, len);
    let h = threat_scores(b, cols, rows, len);
    assert forall|r: int, c: int, d: int| 0 <= d < 4 implies #[trigger] h(r, c, d) == f(r, c, d) + g(r, c, d) by {
        lemma_threat_window(b, cols, rows, r, c, d, len);
    }
    lemma_sum_grid_add(f, g, h, cols, rows);
}

/// A line of `sym` of length `len` is also a line of every shorter length.
pub proof fn lemma_line_of_shorter_length(b: Seq<i8>, cols: int, rows: int, sym: i8, len: int, shorter: int)
    requires
        shorter <= len,
        exists|r: int, c: int| line_at(b, cols, rows, r, c, sym, len),
    ensures
        exists|r: int, c: int| line_at(b, cols, rows, r, c, sym, shorter),
{
    let (r, c) = choose|r: int, c: int| line_at(b, cols, rows, r, c, sym, len);
    assert(line_at(b, cols, rows, r, c, sym, shorter));
}


/// Setting a cell to `sym` keeps every in-grid cell of `sym` a cell of `sym`.
proof fn lemma_cell_kept(b: Seq<i8>, cols: int, rows: int, i: int, sym: i8, r: int, c: int)
    requires
        shaped(b, cols, rows),
        0 <= i < b.len(),
        in_grid(rows, cols, r, c),
        cell(b, cols, r, c) == sym,
    ensures
        cell(b.update(i, sym), cols, r, c) == sym,
{
    lemma_cell_index(rows, cols, r, c);
}

proof fn lemma_run_len_more_stones(b: Seq<i8>, cols: int, rows: int, i: int, r: int, c: int, dr: int, dc: int, sym: i8, k: int)
    requires
        shaped(b, cols, rows),
        0 <= i < b.len(),
    ensures
        run_len(b.update(i, sym), cols, rows, r, c, dr, dc, sym, k) >= run_len(b, cols, rows, r, c, dr, dc, sym, k),
    decreases rows + cols - k,
{
    if k < rows + cols {
        lemma_run_len_more_stones(b, cols, rows, i, r, c, dr, dc, sym, k + 1);
        lemma_run_len_nonneg(b.update(i, sym), cols, rows, r, c, dr, dc, sym, k + 1);
        if in_grid(rows, cols, r + dr * k, c + dc * k) && cell(b, cols, r + dr * k, c + dc * k) == sym {
            lemma_cell_kept(b, cols, rows, i, sym, r + dr * k, c + dc * k);
        }
    }
}

/// A line of `sym` survives putting one more stone of `sym` anywhere on the board:
/// `has_line` can only turn true as cells come to hold `sym`.
pub proof fn lemma_line_survives_more_stones(b: Seq<i8>, cols: int, rows: int, sym: i8, len: int, i: int)
    requires
        shaped(b, cols, rows),
        0 <= i < rows * cols,
        exists|r: int, c: int| line_at(b, cols, rows, r, c, sym, len),
    ensures
        exists|r: int, c: int| line_at(b.update(i, sym), cols, rows, r, c, sym, len),
{
    let (r, c) = choose|r: int, c: int| line_at(b, cols, rows, r, c, sym, len);
    let b2 = b.update(i, sym);
    lemma_cell_kept(b, cols, rows, i, sym, r, c);
    lemma_run_len_more_stones(b, cols, rows, i, r, c, 0, 1, sym, 1);
    lemma_run_len_more_stones(b, cols, rows, i, r, c, 0, -1, sym, 1);
    lemma_run_len_more_stones(b, cols, rows, i, r, c, 1, 0, sym, 1);
    lemma_run_len_more_stones(b, cols, rows, i, r, c, -1, 0, sym, 1);
    lemma_run_len_more_stones(b, cols, rows, i, r, c, 1, 1, sym, 1);
    lemma_run_len_more_stones(b, cols, rows, i, r, c, -1, -1, sym, 1);
    lemma_run_len_more_stones(b, cols, rows, i, r, c, 1, -1, sym, 1);
    lemma_run_len_more_stones(b, cols, rows, i, r, c, -1, 1, sym, 1);
    assert(line_at(b2, cols, rows, r, c, sym, len));
}


proof fn lemma_count_eq_le(b: Seq<i8>, b2: Seq<i8>, cols: int, r: int, c: int, dr: int, dc: int, v: i8, n: int)
    requires
        forall|s: int| 0 <= s < n && #[trigger] wcell(b, cols, r, c, dr, dc, s) == v ==> wcell(b2, cols, r, c, dr, dc, s) == v,
    ensures
        count_eq(b, cols, r, c, dr, dc, v, n) <= count_eq(b2, cols, r, c, dr, dc, v, n),
    decreases n,
{
    if n > 0 {
        lemma_count_eq_le(b, b2, cols, r, c, dr, dc, v, n - 1);
    }
}

/// Putting `v` on the empty cell `i` changes a window only where it covers `i`.
proof fn lemma_window_update(b: Seq<i8>, cols: int, rows: int, r: int, c: int, d: int, len: int, i: int, v: i8)
    requires
        shaped(b, cols, rows),
        0 <= i < rows * cols,
        b[i] == -1,
        0 <= d < 4,
        window_fits(rows, cols, r, c, dir_r(d), dir_c(d), len),
    ensures
        forall|s: int|
            0 <= s < len ==> (#[trigger] wcell(b.update(i, v), cols, r, c, dir_r(d), dir_c(d), s) == wcell(b, cols, r, c, dir_r(d), dir_c(d), s)
                || (wcell(b.update(i, v), cols, r, c, dir_r(d), dir_c(d), s) == v && wcell(b, cols, r, c, dir_r(d), dir_c(d), s) == -1)),
{
    assert forall|s: int| 0 <= s < len implies (#[trigger] wcell(b.update(i, v), cols, r, c, dir_r(d), dir_c(d), s) == wcell(
        b,
        cols,
        r,
        c,
        dir_r(d),
        dir_c(d),
        s,
    ) || (wcell(b.update(i, v), cols, r, c, dir_r(d), dir_c(d), s) == v && wcell(b, cols, r, c, dir_r(d), dir_c(d), s) == -1)) by {
        lemma_window_cell(rows, cols, r, c, dir_r(d), dir_c(d), len, s);
    }
}

/// One window: my stone on an empty cell never lowers its score, an opponent's never
/// raises it, and no score is negative.
proof fn lemma_window_stone(b: Seq<i8>, cols: int, rows: int, r: int, c: int, d: int, me: i8, o: i8, len: int, i: int)
    requires
        shaped(b, cols, rows),
        0 <= i < rows * cols,
        b[i] == -1,
        me >= 0,
        o >= 0,
        o != me,
        0 <= d < 4,
    ensures
        window_score(b.update(i, me), cols, rows, r, c, dir_r(d), dir_c(d), me, len) >= window_score(b, cols, rows, r, c, dir_r(d), dir_c(d), me, len),
        window_score(b, cols, rows, r, c, dir_r(d), dir_c(d), me, len) >= window_score(b.update(i, o), cols, rows, r, c, dir_r(d), dir_c(d), me, len),
        window_score(b.update(i, o), cols, rows, r, c, dir_r(d), dir_c(d), me, len) >= 0,
{
    let (dr, dc) = (dir_r(d), dir_c(d));
    let bm = b.update(i, me);
    let bo = b.update(i, o);
    let m = count_eq(b, cols, r, c, dr, dc, me, len);
    let mm = count_eq(bm, cols, r, c, dr, dc, me, len);
    let mo = count_eq(bo, cols, r, c, dr, dc, me, len);
    assert(m * m >= 0 && mm * mm >= 0 && mo * mo >= 0) by (nonlinear_arith);
    if window_fits(rows, cols, r, c, dr, dc, len) {
        lemma_window_update(b, cols, rows, r, c, d, len, i, me);
        lemma_window_update(b, cols, rows, r, c, d, len, i, o);
        lemma_count_eq_le(b, bm, cols, r, c, dr, dc, me, len);
        lemma_count_eq_le(bo, b, cols, r, c, dr, dc, me, len);
        lemma_count_eq_bound(b, cols, r, c, dr, dc, me, len);
        lemma_count_eq_bound(bo, cols, r, c, dr, dc, me, len);
        if window_blocked(bm, cols, r, c, dr, dc, me, len) {
            let s = choose|s: int| 0 <= s < len && #[trigger] wcell(bm, cols, r, c, dr, dc, s) >= 0 && wcell(bm, cols, r, c, dr, dc, s) != me;
            assert(window_blocked(b, cols, r, c, dr, dc, me, len));
        }
        if window_blocked(b, cols, r, c, dr, dc, me, len) {
            let s = choose|s: int| 0 <= s < len && #[trigger] wcell(b, cols, r, c, dr, dc, s) >= 0 && wcell(b, cols, r, c, dr, dc, s) != me;
            assert(wcell(bo, cols, r, c, dr, dc, s) == wcell(b, cols, r, c, dr, dc, s));
            assert(window_blocked(bo, cols, r, c, dr, dc, me, len));
        }
        assert(mm * mm >= m * m) by (nonlinear_arith)
            requires
                0 <= m <= mm,
        ;
        assert(m * m >= mo * mo) by (nonlinear_arith)
            requires
                0 <= mo <= m,
        ;
    }
}

proof fn lemma_sum_dirs_le(f: spec_fn(int, int, int) -> int, g: spec_fn(int, int, int) -> int, r: int, c: int, n: int)
    requires
        n <= 4,
        forall|d: int| 0 <= d < 4 ==> #[trigger] f(r, c, d) <= g(r, c, d),
    ensures
        sum_dirs(f, r, c, n) <= sum_dirs(g, r, c, n),
    decreases n,
{
    if n > 0 {
        lemma_sum_dirs_le(f, g, r, c, n - 1);
    }
}

proof fn lemma_sum_row_le(f: spec_fn(int, int, int) -> int, g: spec_fn(int, int, int) -> int, r: int, n: int)
    requires
        forall|c: int, d: int| 0 <= d < 4 ==> #[trigger] f(r, c, d) <= g(r, c, d),
    ensures
        sum_row(f, r, n) <= sum_row(g, r, n),
    decreases n,
{
    if n > 0 {
        lemma_sum_row_le(f, g, r, n - 1);
        lemma_sum_dirs_le(f, g, r, n - 1, 4);
    }
}

proof fn lemma_sum_grid_le(f: spec_fn(int, int, int) -> int, g: spec_fn(int, int, int) -> int, cols: int, m: int)
    requires
        forall|r: int, c: int, d: int| 0 <= d < 4 ==> #[trigger] f(r, c, d) <= g(r, c, d),
    ensures
        sum_grid(f, cols, m) <= sum_grid(g, cols, m),
    decreases m,
{
    if m > 0 {
        lemma_sum_grid_le(f, g, cols, m - 1);
        lemma_sum_row_le(f, g, m - 1, cols);
    }
}

proof fn lemma_sum_grid_zero(cols: int, m: int)
    ensures
        sum_grid(|r: int, c: int, d: int| 0int, cols, m) == 0,
    decreases m,
{
    if m > 0 {
        lemma_sum_grid_zero(cols, m - 1);
        lemma_sum_row_zero(m - 1, cols);
    }
}

proof fn lemma_sum_row_zero(r: int, n: int)
    ensures
        sum_row(|r: int, c: int, d: int| 0int, r, n) == 0,
    decreases n,
{
    if n > 0 {
        lemma_sum_row_zero(r, n - 1);
        let z = |r: int, c: int, d: int| 0int;
        assert(sum_dirs(z, r, n - 1, 4) == 0) by {
            assert(sum_dirs(z, r, n - 1, 0) == 0);
            assert(sum_dirs(z, r, n - 1, 1) == 0);
            assert(sum_dirs(z, r, n - 1, 2) == 0);
            assert(sum_dirs(z, r, n - 1, 3) == 0);
        }
    }
}

/// Putting my stone on an empty cell never lowers `window_eval` for me, putting an
/// opponent's stone there never raises it, and it is never negative.
pub proof fn lemma_window_eval_stone(b: Seq<i8>, cols: int, rows: int, me: i8, o: i8, len: int, i: int)
    requires
        shaped(b, cols, rows),
        0 <= i < rows * cols,
        b[i] == -1,
        me >= 0,
        o >= 0,
        o != me,
    ensures
        sum_grid(window_scores(b.update(i, me), cols, rows, me, len), cols, rows) >= sum_grid(window_scores(b, cols, rows, me, len), cols, rows),
        sum_grid(window_scores(b, cols, rows, me, len), cols, rows) >= sum_grid(window_scores(b.update(i, o), cols, rows, me, len), cols, rows),
        sum_grid(window_scores(b.update(i, o), cols, rows, me, len), cols, rows) >= 0,
{
    let fm = window_scores(b.update(i, me), cols, rows, me, len);
    let f = window_scores(b, cols, rows, me, len);
    let fo = window_scores(b.update(i, o), cols, rows, me, len);
    let z = |r: int, c: int, d: int| 0int;
    assert forall|r: int, c: int, d: int| 0 <= d < 4 implies #[trigger] f(r, c, d) <= fm(r, c, d) && fo(r, c, d) <= f(r, c, d) && z(r, c, d) <= fo(r, c, d) by {
        lemma_window_stone(b, cols, rows, r, c, d, me, o, len, i);
    }
    assert forall|r: int, c: int, d: int| 0 <= d < 4 implies #[trigger] fo(r, c, d) <= f(r, c, d) by {
        lemma_window_stone(b, cols, rows, r, c, d, me, o, len, i);
    }
    assert forall|r: int, c: int, d: int| 0 <= d < 4 implies #[trigger] z(r, c, d) <= fo(r, c, d) by {
        lemma_window_stone(b, cols, rows, r, c, d, me, o, len, i);
    }
    lemma_sum_grid_le(f, fm, cols, rows);
    lemma_sum_grid_le(fo, f, cols, rows);
    lemma_sum_grid_le(z, fo, cols, rows);
    lemma_sum_grid_zero(cols, rows);
}


proof fn lemma_center_row_mirror(b: Seq<i8>, mb: Seq<i8>, cols: int, rows: int, me: i8, r: int, k: int)
    requires
        0 <= k <= cols,
        forall|c: int| 0 <= c < cols ==> #[trigger] cell(mb, cols, r, c) == cell(b, cols, r, cols - 1 - c),
    ensures
        center_row(mb, cols, rows, me, r, k) == center_row(b, cols, rows, me, r, cols) - center_row(b, cols, rows, me, r, cols - k),
    decreases k,
{
    if k > 0 {
        lemma_center_row_mirror(b, mb, cols, rows, me, r, k - 1);
        assert(cell(mb, cols, r, k - 1) == cell(b, cols, r, cols - k));
        assert(center_weight(cols, rows, r, k - 1) == center_weight(cols, rows, r, cols - k));
    }
}

proof fn lemma_center_total_rows(b: Seq<i8>, mb: Seq<i8>, cols: int, rows: int, me: i8, m: int)
    requires
        0 <= cols,
        forall|r: int, c: int| 0 <= r < rows && 0 <= c < cols ==> #[trigger] cell(mb, cols, r, c) == cell(b, cols, r, cols - 1 - c),
        m <= rows,
    ensures
        center_total(mb, cols, rows, me, m) == center_total(b, cols, rows, me, m),
    decreases m,
{
    if m > 0 {
        lemma_center_total_rows(b, mb, cols, rows, me, m - 1);
        lemma_center_row_mirror(b, mb, cols, rows, me, m - 1, cols);
    }
}

proof fn lemma_center_row_same(b: Seq<i8>, fb: Seq<i8>, cols: int, rows: int, me: i8, r: int, r2: int, k: int)
    requires
        forall|c: int| 0 <= c < k ==> #[trigger] cell(fb, cols, r, c) == cell(b, cols, r2, c),
        r2 == rows - 1 - r,
    ensures
        center_row(fb, cols, rows, me, r, k) == center_row(b, cols, rows, me, r2, k),
    decreases k,
{
    if k > 0 {
        lemma_center_row_same(b, fb, cols, rows, me, r, r2, k - 1);
        assert(cell(fb, cols, r, k - 1) == cell(b, cols, r2, k - 1));
        assert(center_weight(cols, rows, r, k - 1) == center_weight(cols, rows, r2, k - 1));
    }
}

proof fn lemma_center_total_flip(b: Seq<i8>, fb: Seq<i8>, cols: int, rows: int, me: i8, k: int)
    requires
        0 <= k <= rows,
        forall|r: int, c: int| 0 <= r < rows && 0 <= c < cols ==> #[trigger] cell(fb, cols, r, c) == cell(b, cols, rows - 1 - r, c),
    ensures
        center_total(fb, cols, rows, me, k) == center_total(b, cols, rows, me, rows) - center_total(b, cols, rows, me, rows - k),
    decreases k,
{
    if k > 0 {
        lemma_center_total_flip(b, fb, cols, rows, me, k - 1);
        lemma_center_row_same(b, fb, cols, rows, me, k - 1, rows - k, cols);
    }
}

/// `center_eval` cannot tell a board from its left-right mirror image or its
/// top-bottom flip.
pub proof fn lemma_center_eval_symmetric(b: Seq<i8>, mb: Seq<i8>, fb: Seq<i8>, cols: int, rows: int, me: i8)
    requires
        0 <= cols,
        0 <= rows,
        forall|r: int, c: int| 0 <= r < rows && 0 <= c < cols ==> #[trigger] cell(mb, cols, r, c) == cell(b, cols, r, cols - 1 - c),
        forall|r: int, c: int| 0 <= r < rows && 0 <= c < cols ==> #[trigger] cell(fb, cols, r, c) == cell(b, cols, rows - 1 - r, c),
    ensures
        center_total(mb, cols, rows, me, rows) == center_total(b, cols, rows, me, rows),
        center_total(fb, cols, rows, me, rows) == center_total(b, cols, rows, me, rows),
{
    lemma_center_total_rows(b, mb, cols, rows, me, rows);
    lemma_center_total_flip(b, fb, cols, rows, me, rows);
}


/// The cell `t` steps from `(r, c)` along `(dr, dc)` is on the board and holds `sym`.
pub open spec fn holds_at(b: Seq<i8>, cols: int, rows: int, r: int, c: int, dr: int, dc: int, t: int, sym: i8) -> bool {
    in_grid(rows, cols, r + dr * t, c + dc * t) && cell(b, cols, r + dr * t, c + dc * t) == sym
}

/// A run of `sym` on cells `k, k + 1, ..., e` along `(dr, dc)` counts at least those cells.
proof fn lemma_run_len_at_least(b: Seq<i8>, cols: int, rows: int, r: int, c: int, dr: int, dc: int, sym: i8, k: int, e: int)
    requires
        1 <= k,
        forall|t: int| k <= t <= e ==> #[trigger] holds_at(b, cols, rows, r, c, dr, dc, t, sym),
        in_grid(rows, cols, r, c),
        -1 <= dr <= 1,
        -1 <= dc <= 1,
        dr != 0 || dc != 0,
    ensures
        run_len(b, cols, rows, r, c, dr, dc, sym, k) >= e - k + 1,
    decreases e - k + 1,
{
    lemma_run_len_nonneg(b, cols, rows, r, c, dr, dc, sym, k);
    if k <= e {
        assert(holds_at(b, cols, rows, r, c, dr, dc, k, sym));
        assert(k < rows + cols) by (nonlinear_arith)
            requires
                0 <= r < rows,
                0 <= c < cols,
                0 <= r + dr * k < rows,
                0 <= c + dc * k < cols,
                -1 <= dr <= 1,
                -1 <= dc <= 1,
                dr != 0 || dc != 0,
                k >= 1,
        ;
        lemma_run_len_at_least(b, cols, rows, r, c, dr, dc, sym, k + 1, e);
    }
}

/// `max_run` sees straight lines in all four orientations (rows, columns and both
/// diagonals): when the cells from `a` steps back to `e` steps ahead of `(r, c)` along
/// any non-zero unit direction `(dr, dc)` all hold `sym`, the longest run through
/// `(r, c)` is at least `a + e + 1`.
pub proof fn lemma_max_run_sees_every_line(b: Seq<i8>, cols: int, rows: int, r: int, c: int, sym: i8, dr: int, dc: int, a: int, e: int)
    requires
        -1 <= dr <= 1,
        -1 <= dc <= 1,
        dr != 0 || dc != 0,
        a >= 0,
        e >= 0,
        forall|t: int| -a <= t <= e ==> #[trigger] holds_at(b, cols, rows, r, c, dr, dc, t, sym),
    ensures
        max_run_spec(b, cols, rows, r, c, sym) >= a + e + 1,
{
    assert(holds_at(b, cols, rows, r, c, dr, dc, 0, sym));
    assert(r + dr * 0 == r && c + dc * 0 == c) by (nonlinear_arith);
    lemma_run_len_at_least(b, cols, rows, r, c, dr, dc, sym, 1, e);
    assert forall|t: int| 1 <= t <= a implies #[trigger] holds_at(b, cols, rows, r, c, -dr, -dc, t, sym) by {
        assert(r + (-dr) * t == r + dr * (-t) && c + (-dc) * t == c + dc * (-t)) by (nonlinear_arith);
        assert(holds_at(b, cols, rows, r, c, dr, dc, -t, sym));
    }
    lemma_run_len_at_least(b, cols, rows, r, c, -dr, -dc, sym, 1, a);
    assert(line_through(b, cols, rows, r, c, dr, dc, sym) >= a + e + 1);
    assert(-(-dr) == dr && -(-dc) == dc);
    assert(line_through(b, cols, rows, r, c, -dr, -dc, sym) >= a + e + 1);
}


/// The cells a run counts from step `k` hold `sym`.
proof fn lemma_run_len_cells(b: Seq<i8>, cols: int, rows: int, r: int, c: int, dr: int, dc: int, sym: i8, k: int, t: int)
    requires
        k <= t < k + run_len(b, cols, rows, r, c, dr, dc, sym, k),
    ensures
        holds_at(b, cols, rows, r, c, dr, dc, t, sym),
    decreases rows + cols - k,
{
    if k < rows + cols && t > k {
        lemma_run_len_cells(b, cols, rows, r, c, dr, dc, sym, k + 1, t);
    }
}

/// The line through `(r, c)` along `(dr, dc)` that `line_through` measures is made of
/// cells holding `sym`.
proof fn lemma_line_through_cells(b: Seq<i8>, cols: int, rows: int, r: int, c: int, dr: int, dc: int, sym: i8)
    requires
        in_grid(rows, cols, r, c),
        cell(b, cols, r, c) == sym,
    ensures
        forall|t: int|
            -run_len(b, cols, rows, r, c, -dr, -dc, sym, 1) <= t <= run_len(b, cols, rows, r, c, dr, dc, sym, 1) ==> #[trigger] holds_at(
                b,
                cols,
                rows,
                r,
                c,
                dr,
                dc,
                t,
                sym,
            ),
{
    let a = run_len(b, cols, rows, r, c, -dr, -dc, sym, 1);
    let e = run_len(b, cols, rows, r, c, dr, dc, sym, 1);
    assert forall|t: int| -a <= t <= e implies #[trigger] holds_at(b, cols, rows, r, c, dr, dc, t, sym) by {
        if t > 0 {
            lemma_run_len_cells(b, cols, rows, r, c, dr, dc, sym, 1, t);
        } else if t < 0 {
            lemma_run_len_cells(b, cols, rows, r, c, -dr, -dc, sym, 1, -t);
            assert(r + (-dr) * (-t) == r + dr * t && c + (-dc) * (-t) == c + dc * t) by (nonlinear_arith);
        } else {
            assert(r + dr * 0 == r && c + dc * 0 == c) by (nonlinear_arith);
        }
    }
}

/// The cells from `a` steps back to `e` steps ahead of `(r, c)` along the non-zero unit
/// direction `(dr, dc)` are on the board and hold `sym`.
pub open spec fn sym_line(b: Seq<i8>, cols: int, rows: int, r: int, c: int, dr: int, dc: int, a: int, e: int, sym: i8) -> bool {
    &&& -1 <= dr <= 1
    &&& -1 <= dc <= 1
    &&& (dr != 0 || dc != 0)
    &&& a >= 0
    &&& e >= 0
    &&& forall|t: int| -a <= t <= e ==> #[trigger] holds_at(b, cols, rows, r, c, dr, dc, t, sym)
}

/// `max_run` is the length of an actual line: a cell not holding `sym` scores 0, and
/// otherwise some straight or diagonal line of `sym` cells through `(r, c)`, `a` cells
/// back and `e` ahead, has exactly `max_run` cells.
pub proof fn lemma_max_run_is_a_line(b: Seq<i8>, cols: int, rows: int, r: int, c: int, sym: i8)
    requires
        in_grid(rows, cols, r, c),
    ensures
        cell(b, cols, r, c) != sym ==> max_run_spec(b, cols, rows, r, c, sym) == 0,
        cell(b, cols, r, c) == sym ==> exists|dr: int, dc: int, a: int, e: int|
            #[trigger] sym_line(b, cols, rows, r, c, dr, dc, a, e, sym) && a + e + 1 == max_run_spec(b, cols, rows, r, c, sym),
{
    if cell(b, cols, r, c) == sym {
        let m = max_run_spec(b, cols, rows, r, c, sym);
        let mut w: (int, int) = (0, 1);
        if m == line_through(b, cols, rows, r, c, 0, 1, sym) {
            w = (0, 1);
        } else if m == line_through(b, cols, rows, r, c, 1, 0, sym) {
            w = (1, 0);
        } else if m == line_through(b, cols, rows, r, c, 1, 1, sym) {
            w = (1, 1);
        } else if m == line_through(b, cols, rows, r, c, 1, -1, sym) {
            w = (1, -1);
        }
        let (dr, dc) = w;
        lemma_run_len_nonneg(b, cols, rows, r, c, dr, dc, sym, 1);
        lemma_run_len_nonneg(b, cols, rows, r, c, -dr, -dc, sym, 1);
        lemma_line_through_cells(b, cols, rows, r, c, dr, dc, sym);
        let a = run_len(b, cols, rows, r, c, -dr, -dc, sym, 1);
        let e = run_len(b, cols, rows, r, c, dr, dc, sym, 1);
        if m == line_through(b, cols, rows, r, c, dr, dc, sym) {
            assert(sym_line(b, cols, rows, r, c, dr, dc, a, e, sym));
        } else {
            // the maximum is the single cell itself
            assert(m == 1);
            assert forall|t: int| -0 <= t <= 0 implies #[trigger] holds_at(b, cols, rows, r, c, 0, 1, t, sym) by {
                assert(r + 0 * t == r && c + 1 * t == c + t) by (nonlinear_arith);
            }
            assert(sym_line(b, cols, rows, r, c, 0, 1, 0, 0, sym));
        }
    }
}


proof fn lemma_sum_dirs_nonneg(f: spec_fn(int, int, int) -> int, r: int, c: int, n: int)
    requires
        forall|r2: int, c2: int, d: int| #[trigger] f(r2, c2, d) >= 0,
    ensures
        sum_dirs(f, r, c, n) >= 0,
    decreases n,
{
    if n > 0 {
        lemma_sum_dirs_nonneg(f, r, c, n - 1);
    }
}

proof fn lemma_sum_row_nonneg(f: spec_fn(int, int, int) -> int, r: int, n: int)
    requires
        forall|r2: int, c2: int, d: int| #[trigger] f(r2, c2, d) >= 0,
    ensures
        sum_row(f, r, n) >= 0,
    decreases n,
{
    if n > 0 {
        lemma_sum_row_nonneg(f, r, n - 1);
        lemma_sum_dirs_nonneg(f, r, n - 1, 4);
    }
}

proof fn lemma_sum_grid_nonneg(f: spec_fn(int, int, int) -> int, cols: int, m: int)
    requires
        forall|r2: int, c2: int, d: int| #[trigger] f(r2, c2, d) >= 0,
    ensures
        sum_grid(f, cols, m) >= 0,
    decreases m,
{
    if m > 0 {
        lemma_sum_grid_nonneg(f, cols, m - 1);
        lemma_sum_row_nonneg(f, m - 1, cols);
    }
}

/// A sum of non-negative window scores is at least each of its windows.
proof fn lemma_sum_grid_has(f: spec_fn(int, int, int) -> int, cols: int, m: int, r: int, c: int, d: int)
    requires
        forall|r2: int, c2: int, d2: int| #[trigger] f(r2, c2, d2) >= 0,
        0 <= r < m,
        0 <= c < cols,
        0 <= d < 4,
    ensures
        sum_grid(f, cols, m) >= f(r, c, d),
    decreases m,
{
    lemma_sum_grid_nonneg(f, cols, m - 1);
    lemma_sum_row_nonneg(f, m - 1, cols);
    if r < m - 1 {
        lemma_sum_grid_has(f, cols, m - 1, r, c, d);
    } else {
        lemma_sum_row_has(f, r, cols, c, d);
    }
}

proof fn lemma_sum_row_has(f: spec_fn(int, int, int) -> int, r: int, n: int, c: int, d: int)
    requires
        forall|r2: int, c2: int, d2: int| #[trigger] f(r2, c2, d2) >= 0,
        0 <= c < n,
        0 <= d < 4,
    ensures
        sum_row(f, r, n) >= f(r, c, d),
    decreases n,
{
    lemma_sum_row_nonneg(f, r, n - 1);
    lemma_sum_dirs_nonneg(f, r, n - 1, 4);
    if c < n - 1 {
        lemma_sum_row_has(f, r, n - 1, c, d);
    } else {
        lemma_sum_dirs_has(f, r, c, 4, d);
    }
}

proof fn lemma_sum_dirs_has(f: spec_fn(int, int, int) -> int, r: int, c: int, n: int, d: int)
    requires
        forall|r2: int, c2: int, d2: int| #[trigger] f(r2, c2, d2) >= 0,
        0 <= d < n,
    ensures
        sum_dirs(f, r, c, n) >= f(r, c, d),
    decreases n,
{
    lemma_sum_dirs_nonneg(f, r, c, n - 1);
    if d < n - 1 {
        lemma_sum_dirs_has(f, r, c, n - 1, d);
    }
}

/// The index among the four line orientations (right, down, down-right, down-left) of
/// the unit step `(dr, dc)`, or 4 for any other step.
pub open spec fn orientation(dr: int, dc: int) -> int {
    if dr == 0 && dc == 1 {
        0
    } else if dr == 1 && dc == 0 {
        1
    } else if dr == 1 && dc == 1 {
        2
    } else if dr == 1 && dc == -1 {
        3
    } else {
        4
    }
}

/// `window_eval` and `line_threat` count every window of every orientation: rows,
/// columns and both diagonals. Each sum is at least the score of any single window that
/// starts on the board and runs right, down, down-right or down-left.
pub proof fn lemma_every_window_counts(b: Seq<i8>, cols: int, rows: int, me: i8, len: int, r: int, c: int, dr: int, dc: int)
    requires
        0 <= r < rows,
        0 <= c < cols,
        (dr == 0 && dc == 1) || (dr == 1 && dc == 0) || (dr == 1 && dc == 1) || (dr == 1 && dc == -1),
    ensures
        sum_grid(window_scores(b, cols, rows, me, len), cols, rows) >= window_score(b, cols, rows, r, c, dr, dc, me, len),
        sum_grid(threat_scores(b, cols, rows, len), cols, rows) >= threat_score(b, cols, rows, r, c, dr, dc, len),
{
    let f = window_scores(b, cols, rows, me, len);
    let g = threat_scores(b, cols, rows, len);
    assert forall|r2: int, c2: int, d2: int| #[trigger] f(r2, c2, d2) >= 0 by {
        let m = count_eq(b, cols, r2, c2, dir_r(d2), dir_c(d2), me, len);
        assert(m * m >= 0) by (nonlinear_arith);
    }
    assert forall|r2: int, c2: int, d2: int| #[trigger] g(r2, c2, d2) >= 0 by {
        let m = count_occupied(b, cols, r2, c2, dir_r(d2), dir_c(d2), len);
        assert(m * m >= 0) by (nonlinear_arith);
    }
    let d = orientation(dr, dc);
    assert(dir_r(d) == dr && dir_c(d) == dc);
    lemma_sum_grid_has(f, cols, rows, r, c, d);
    lemma_sum_grid_has(g, cols, rows, r, c, d);
}

} // verus!
