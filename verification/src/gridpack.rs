//! Five line and shape games on one grid: Connect Six (six in a row, two stones a
//! turn after the first), Order and Chaos (Order wants five of either symbol in a
//! row, Chaos a full board without), Squava (four in a row wins, three loses),
//! Notakto (one shared mark; completing three in a row loses) and Square Up (the
//! corners of a square in one colour win).
use vstd::prelude::*;
use crate::gridlib::{
    shaped, line_symbol, line_symbol_spec, has_line, line_at, is_full, center_eval, center_total, window_eval,
    window_scores, line_threat, threat_scores, has_square, square_edge, sum_grid, MAX_DIM,
};
use crate::outcome::Outcome;
use crate::text::{push_char, push_dec, push_str, push_joined, join_nums, u16s, dec, chars_of, parse_uint, parse_uint_range, parse_list, parse_u16_list};

verus! {

/// Cell character: ` ` empty, then `X`, `O`, `A`, `B` for symbols 0 to 3, `?` beyond.
pub open spec fn symbol_char(v: i8) -> char {
    if v < 0 {
        ' '
    } else if v == 0 {
        'X'
    } else if v == 1 {
        'O'
    } else if v == 2 {
        'A'
    } else if v == 3 {
        'B'
    } else {
        '?'
    }
}

pub fn board_string(board: &[i8]) -> (s: String)
    ensures
        s@ == Seq::new(board@.len(), |i: int| symbol_char(board@[i])),
{
    let mut s = String::new();
    let mut i: usize = 0;
    while i < board.len()
        invariant
            i <= board@.len(),
            s@ == Seq::new(i as nat, |j: int| symbol_char(board@[j])),
        decreases board@.len() - i,
    {
        let v = board[i];
        let ch = if v < 0 {
            ' '
        } else if v == 0 {
            'X'
        } else if v == 1 {
            'O'
        } else if v == 2 {
            'A'
        } else if v == 3 {
            'B'
        } else {
            '?'
        };
        push_char(&mut s, ch);
        assert(s@ =~= Seq::new((i + 1) as nat, |j: int| symbol_char(board@[j])));
        i += 1;
    }
    s
}

/// The winner counted from 1 (from the side to move's value), `Draw`, or empty.
pub open spec fn result_text(term: Option<Outcome>, current: u8) -> Seq<char> {
    match term {
        Some(Outcome::Win) => dec((current + 1) as nat),
        Some(Outcome::Loss) => dec((1 - current + 1) as nat),
        Some(Outcome::Draw) => seq!['D', 'r', 'a', 'w'],
        None => seq![],
    }
}

pub fn result_str(term: Option<Outcome>, current: u8) -> (s: String)
    requires
        current <= 1,
    ensures
        s@ == result_text(term, current),
{
    let mut s = String::new();
    match term {
        Some(Outcome::Win) => push_dec(&mut s, current as u64 + 1),
        Some(Outcome::Loss) => push_dec(&mut s, (1 - current) as u64 + 1),
        Some(Outcome::Draw) => {
            push_str(&mut s, "Draw");
            proof {
                reveal_strlit("Draw");
            }
        },
        None => {},
    }
    s
}

pub open spec fn empties_upto(b: Seq<i8>, n: int) -> Seq<u16>
    decreases n,
{
    if n <= 0 {
        seq![]
    } else {
        empties_upto(b, n - 1) + if b[n - 1] < 0 { seq![(n - 1) as u16] } else { seq![] }
    }
}

/// The empty cells, in order.
pub open spec fn empties(b: Seq<i8>) -> Seq<u16> {
    empties_upto(b, b.len() as int)
}

pub fn empty_cells(board: &Vec<i8>) -> (v: Vec<u16>)
    ensures
        v@ == empties(board@),
{
    let mut v: Vec<u16> = Vec::new();
    let mut i: usize = 0;
    while i < board.len()
        invariant
            i <= board@.len(),
            v@ == empties_upto(board@, i as int),
        decreases board@.len() - i,
    {
        if board[i] < 0 {
            v.push(i as u16);
        }
        i += 1;
    }
    v
}

proof fn lemma_empties(b: Seq<i8>, n: int, m: u16)
    requires
        0 <= n <= b.len(),
        empties_upto(b, n).contains(m),
    ensures
        (m as int) < n,
        b.len() <= 65536 ==> b[m as int] < 0,
    decreases n,
{
    if n > 0 {
        let a = empties_upto(b, n - 1);
        if a.contains(m) {
            lemma_empties(b, n - 1, m);
        } else {
            let k = choose|k: int| 0 <= k < empties_upto(b, n).len() && empties_upto(b, n)[k] == m;
            assert(k >= a.len());
        }
    }
}

/// A table side clamped to 3..=12.
pub fn table_side(n: u32) -> (s: usize)
    ensures
        s == (if n < 3 { 3 } else if n > 12 { 12 } else { n }),
{
    if n < 3 {
        3
    } else if n > MAX_DIM as u32 {
        MAX_DIM
    } else {
        n as usize
    }
}

/// A board of `cols * rows` empty cells.
fn empty_board(cols: usize, rows: usize) -> (b: Vec<i8>)
    requires
        1 <= cols <= 12,
        1 <= rows <= 12,
    ensures
        shaped(b@, cols as int, rows as int),
        b@.len() <= 144,
        forall|i: int| 0 <= i < b@.len() ==> #[trigger] b@[i] == -1,
{
    proof {
        assert(rows * cols <= 144) by (nonlinear_arith)
            requires
                cols <= 12,
                rows <= 12,
        ;
    }
    let n = rows * cols;
    let mut b: Vec<i8> = Vec::new();
    let mut i: usize = 0;
    while i < n
        invariant
            i <= n,
            n <= 144,
            b@.len() == i,
            forall|j: int| 0 <= j < i ==> #[trigger] b@[j] == -1,
        decreases n - i,
    {
        b.push(-1);
        i += 1;
    }
    b
}

/// The cell that `mov` names on a board of `n` cells.
pub open spec fn parse_cell_spec(mov: Seq<char>, n: int) -> Option<u16> {
    match parse_uint(mov, 65535) {
        Some(v) if v < n => Some(v as u16),
        _ => None,
    }
}

pub fn parse_cell(mov: &str, cols: usize, rows: usize) -> (r: Option<u16>)
    requires
        cols <= 12,
        rows <= 12,
    ensures
        r == parse_cell_spec(mov@, cols * rows),
{
    let cs = chars_of(mov);
    proof {
        assert(cs@.subrange(0, cs@.len() as int) =~= mov@);
        assert(cols * rows <= 144) by (nonlinear_arith)
            requires
                cols <= 12,
                rows <= 12,
        ;
    }
    match parse_uint_range(&cs, 0, cs.len(), 65535) {
        Some(v) if (v as usize) < cols * rows => Some(v as u16),
        _ => None,
    }
}

/// Look `m` up among `moves`.
fn contains_cell(moves: &Vec<u16>, m: u16) -> (b: bool)
    ensures
        b == moves@.contains(m),
{
    let mut i: usize = 0;
    while i < moves.len()
        invariant
            i <= moves@.len(),
            forall|j: int| 0 <= j < i ==> moves@[j] != m,
        decreases moves@.len() - i,
    {
        if moves[i] == m {
            assert(moves@[i as int] == m);
            return true;
        }
        i += 1;
    }
    false
}

/// The largest absolute value `window_eval` or `line_threat` reach on a board of at
/// most twelve by twelve with windows of at most six.
pub open spec fn eval_cap() -> int {
    20736
}

proof fn lemma_small_board(cols: int, rows: int, len: int)
    requires
        0 <= cols <= 12,
        0 <= rows <= 12,
        0 <= len <= 6,
    ensures
        4 * rows * cols * (len * len) <= eval_cap(),
{
    assert(4 * rows * cols * (len * len) <= 20736) by (nonlinear_arith)
        requires
            0 <= cols <= 12,
            0 <= rows <= 12,
            0 <= len <= 6,
    ;
}

// Connect Six.

#[derive(Clone, Debug)]
pub struct Connect6 {
    pub board: Vec<i8>,
    pub cols: usize,
    pub rows: usize,
    pub current: u8,
    /// Stones placed so far this turn.
    pub placed_turn: u8,
    /// Stones placed in the whole game.
    pub total: u32,
}

impl Connect6 {
    pub open spec fn wf(&self) -> bool {
        &&& shaped(self.board@, self.cols as int, self.rows as int)
        &&& 1 <= self.cols <= 12
        &&& 1 <= self.rows <= 12
        &&& self.current <= 1
    }

    /// A line of six wins for its owner; a full board without one is a draw.
    pub open spec fn term_spec(&self) -> Option<Outcome> {
        match line_symbol_spec(self.board@, self.cols as int, self.rows as int, 6) {
            Some(w) => Some(if w as u8 == self.current { Outcome::Win } else { Outcome::Loss }),
            None => if forall|i: int| 0 <= i < self.board@.len() ==> self.board@[i] >= 0 {
                Some(Outcome::Draw)
            } else {
                None
            },
        }
    }

    pub open spec fn moves_spec(&self) -> Seq<u16> {
        if self.term_spec() is Some {
            seq![]
        } else {
            empties(self.board@)
        }
    }

    pub fn new(cols: usize, rows: usize) -> (g: Self)
        requires
            1 <= cols <= 12,
            1 <= rows <= 12,
        ensures
            g.wf(),
            g.cols == cols,
            g.rows == rows,
            g.current == 0,
            g.placed_turn == 0,
            g.total == 0,
            forall|i: int| 0 <= i < g.board@.len() ==> #[trigger] g.board@[i] == -1,
    {
        Connect6 { board: empty_board(cols, rows), cols, rows, current: 0, placed_turn: 0, total: 0 }
    }

    pub fn term(&self) -> (t: Option<Outcome>)
        requires
            self.wf(),
        ensures
            t == self.term_spec(),
    {
        match line_symbol(self.board.as_slice(), self.cols, self.rows, 6) {
            Some(w) => Some(if w as u8 == self.current { Outcome::Win } else { Outcome::Loss }),
            None => if is_full(self.board.as_slice()) {
                Some(Outcome::Draw)
            } else {
                None
            },
        }
    }

    pub fn current_player(&self) -> (p: u8)
        ensures
            p == self.current,
    {
        self.current
    }

    pub fn available_moves(&self) -> (v: Vec<u16>)
        requires
            self.wf(),
        ensures
            v@ == self.moves_spec(),
    {
        if self.term().is_some() {
            return Vec::new();
        }
        empty_cells(&self.board)
    }

    /// Place a stone; the turn passes after the first stone of the game and then
    /// after every second stone.
    pub fn make_move(&mut self, m: &u16)
        requires
            old(self).wf(),
            (*m as int) < old(self).board@.len(),
            old(self).total < u32::MAX,
            old(self).placed_turn < 255,
        ensures
            final(self).wf(),
            final(self).cols == old(self).cols,
            final(self).rows == old(self).rows,
            final(self).board@ == old(self).board@.update(*m as int, old(self).current as i8),
            final(self).total == old(self).total + 1,
            old(self).placed_turn + 1 >= (if old(self).total == 0 { 1int } else { 2 }) ==> final(self).current
                == 1 - old(self).current && final(self).placed_turn == 0,
            old(self).placed_turn + 1 < (if old(self).total == 0 { 1int } else { 2 }) ==> final(self).current
                == old(self).current && final(self).placed_turn == old(self).placed_turn + 1,
    {
        let quota: u8 = if self.total == 0 { 1 } else { 2 };
        self.board.set(*m as usize, self.current as i8);
        self.total = self.total + 1;
        self.placed_turn = self.placed_turn + 1;
        if self.placed_turn >= quota {
            self.current = 1 - self.current;
            self.placed_turn = 0;
        }
    }

    /// First player's window score less the second player's, over windows of six.
    pub fn eval0(&self) -> (e: i64)
        requires
            self.wf(),
        ensures
            e == sum_grid(window_scores(self.board@, self.cols as int, self.rows as int, 0, 6), self.cols as int, self.rows as int)
                - sum_grid(window_scores(self.board@, self.cols as int, self.rows as int, 1, 6), self.cols as int, self.rows as int),
    {
        proof {
            lemma_small_board(self.cols as int, self.rows as int, 6);
        }
        window_eval(self.board.as_slice(), self.cols, self.rows, 0, 6) - window_eval(self.board.as_slice(), self.cols, self.rows, 1, 6)
    }

    pub fn board_string(&self) -> (s: String)
        ensures
            s@ == Seq::new(self.board@.len(), |i: int| symbol_char(self.board@[i])),
    {
        board_string(self.board.as_slice())
    }

    pub fn result_string(&self) -> (s: String)
        requires
            self.wf(),
        ensures
            s@ == result_text(self.term_spec(), self.current),
    {
        result_str(self.term(), self.current)
    }

    /// Place on the cell that `mov` names if that is a legal move; false, leaving the
    /// game unchanged, otherwise.
    pub fn apply_text(&mut self, mov: &str) -> (ok: bool)
        requires
            old(self).wf(),
            old(self).total < u32::MAX,
            old(self).placed_turn < 255,
        ensures
            final(self).wf(),
            ok == (parse_cell_spec(mov@, old(self).cols * old(self).rows) matches Some(m) && old(self).moves_spec().contains(m)),
            !ok ==> *final(self) == *old(self),
            ok ==> final(self).board@ == old(self).board@.update(
                parse_cell_spec(mov@, old(self).cols * old(self).rows)->0 as int,
                old(self).current as i8,
            ),
            ok ==> final(self).cols == old(self).cols && final(self).rows == old(self).rows && final(self).total == old(self).total + 1,
            ok && old(self).placed_turn + 1 >= (if old(self).total == 0 { 1int } else { 2 }) ==> final(self).current
                == 1 - old(self).current && final(self).placed_turn == 0,
            ok && old(self).placed_turn + 1 < (if old(self).total == 0 { 1int } else { 2 }) ==> final(self).current
                == old(self).current && final(self).placed_turn == old(self).placed_turn + 1,
    {
        let m = match parse_cell(mov, self.cols, self.rows) {
            Some(m) => m,
            None => {
                return false;
            },
        };
        let moves = self.available_moves();
        if !contains_cell(&moves, m) {
            return false;
        }
        proof {
            lemma_empties(self.board@, self.board@.len() as int, m);
        }
        self.make_move(&m);
        true
    }
}

// Order and Chaos.

/// Put symbol `sym` (0 or 1) on `cell`.
#[derive(Clone, Copy, Debug, PartialEq, Eq, Structural)]
pub struct OcMove {
    pub cell: u16,
    pub sym: u8,
}

#[derive(Clone, Debug)]
pub struct OrderChaos {
    pub board: Vec<i8>,
    pub cols: usize,
    pub rows: usize,
    /// 0 = Order, 1 = Chaos.
    pub current: u8,
}

pub open spec fn oc_moves_upto(b: Seq<i8>, n: int) -> Seq<OcMove>
    decreases n,
{
    if n <= 0 {
        seq![]
    } else {
        oc_moves_upto(b, n - 1) + if b[n - 1] < 0 {
            seq![OcMove { cell: (n - 1) as u16, sym: 0 }, OcMove { cell: (n - 1) as u16, sym: 1 }]
        } else {
            seq![]
        }
    }
}

impl OrderChaos {
    pub open spec fn wf(&self) -> bool {
        &&& shaped(self.board@, self.cols as int, self.rows as int)
        &&& 1 <= self.cols <= 12
        &&& 1 <= self.rows <= 12
        &&& self.current <= 1
    }

    /// Order wins once a line of five of either symbol stands; Chaos wins on a full
    /// board without one.
    pub open spec fn term_spec(&self) -> Option<Outcome> {
        if line_symbol_spec(self.board@, self.cols as int, self.rows as int, 5) is Some {
            Some(if self.current == 0 { Outcome::Win } else { Outcome::Loss })
        } else if forall|i: int| 0 <= i < self.board@.len() ==> self.board@[i] >= 0 {
            Some(if self.current == 1 { Outcome::Win } else { Outcome::Loss })
        } else {
            None
        }
    }

    /// Each empty cell with symbol 0, then with symbol 1.
    pub open spec fn moves_spec(&self) -> Seq<OcMove> {
        if self.term_spec() is Some {
            seq![]
        } else {
            oc_moves_upto(self.board@, self.board@.len() as int)
        }
    }

    pub fn new(cols: usize, rows: usize) -> (g: Self)
        requires
            1 <= cols <= 12,
            1 <= rows <= 12,
        ensures
            g.wf(),
            g.cols == cols,
            g.rows == rows,
            g.current == 0,
            forall|i: int| 0 <= i < g.board@.len() ==> #[trigger] g.board@[i] == -1,
    {
        OrderChaos { board: empty_board(cols, rows), cols, rows, current: 0 }
    }

    pub fn term(&self) -> (t: Option<Outcome>)
        requires
            self.wf(),
        ensures
            t == self.term_spec(),
    {
        if line_symbol(self.board.as_slice(), self.cols, self.rows, 5).is_some() {
            Some(if self.current == 0 { Outcome::Win } else { Outcome::Loss })
        } else if is_full(self.board.as_slice()) {
            Some(if self.current == 1 { Outcome::Win } else { Outcome::Loss })
        } else {
            None
        }
    }

    pub fn current_player(&self) -> (p: u8)
        ensures
            p == self.current,
    {
        self.current
    }

    pub fn available_moves(&self) -> (v: Vec<OcMove>)
        requires
            self.wf(),
        ensures
            v@ == self.moves_spec(),
    {
        if self.term().is_some() {
            return Vec::new();
        }
        let mut v: Vec<OcMove> = Vec::new();
        let mut i: usize = 0;
        while i < self.board.len()
            invariant
                self.wf(),
                i <= self.board@.len(),
                v@ == oc_moves_upto(self.board@, i as int),
            decreases self.board@.len() - i,
        {
            if self.board[i] < 0 {
                v.push(OcMove { cell: i as u16, sym: 0 });
                v.push(OcMove { cell: i as u16, sym: 1 });
                proof {
                    assert(v@ =~= oc_moves_upto(self.board@, i + 1));
                }
            }
            i += 1;
        }
        v
    }

    pub fn make_move(&mut self, m: &OcMove)
        requires
            old(self).wf(),
            (m.cell as int) < old(self).board@.len(),
            m.sym <= 127,
        ensures
            final(self).wf(),
            final(self).cols == old(self).cols,
            final(self).rows == old(self).rows,
            final(self).board@ == old(self).board@.update(m.cell as int, m.sym as i8),
            final(self).current == 1 - old(self).current,
    {
        self.board.set(m.cell as usize, m.sym as i8);
        self.current = 1 - self.current;
    }

    /// Order's threat over windows of five.
    pub fn eval0(&self) -> (e: i64)
        requires
            self.wf(),
        ensures
            e == sum_grid(threat_scores(self.board@, self.cols as int, self.rows as int, 5), self.cols as int, self.rows as int),
            0 <= e <= eval_cap(),
    {
        proof {
            lemma_small_board(self.cols as int, self.rows as int, 5);
        }
        line_threat(self.board.as_slice(), self.cols, self.rows, 5)
    }

    pub fn board_string(&self) -> (s: String)
        ensures
            s@ == Seq::new(self.board@.len(), |i: int| symbol_char(self.board@[i])),
    {
        board_string(self.board.as_slice())
    }

    pub fn result_string(&self) -> (s: String)
        requires
            self.wf(),
        ensures
            s@ == result_text(self.term_spec(), self.current),
    {
        result_str(self.term(), self.current)
    }

    /// Play the move that `mov` names (`cell,sym`) if it is legal; false, leaving the
    /// game unchanged, otherwise.
    pub fn apply_text(&mut self, mov: &str) -> (ok: bool)
        requires
            old(self).wf(),
        ensures
            final(self).wf(),
            ok == (parse_oc_spec(mov@, old(self).cols * old(self).rows) matches Some(m) && old(self).moves_spec().contains(m)),
            !ok ==> *final(self) == *old(self),
            ok ==> final(self).board@ == old(self).board@.update(
                parse_oc_spec(mov@, old(self).cols * old(self).rows)->0.cell as int,
                parse_oc_spec(mov@, old(self).cols * old(self).rows)->0.sym as i8,
            ) && final(self).current == 1 - old(self).current
                && final(self).cols == old(self).cols && final(self).rows == old(self).rows,
    {
        let m = match parse_oc_move(mov, self.cols, self.rows) {
            Some(m) => m,
            None => {
                return false;
            },
        };
        let moves = self.available_moves();
        let mut found = false;
        let mut i: usize = 0;
        while i < moves.len()
            invariant
                i <= moves@.len(),
                found == exists|j: int| 0 <= j < i && moves@[j] == m,
            decreases moves@.len() - i,
        {
            if moves[i] == m {
                found = true;
            }
            i += 1;
        }
        if !found {
            return false;
        }
        proof {
            assert(self.cols * self.rows == self.rows * self.cols) by (nonlinear_arith);
        }
        self.make_move(&m);
        true
    }
}

/// The move that `mov` names: `cell,sym` with the cell on a board of `n` cells and the
/// symbol 0 or 1.
pub open spec fn parse_oc_spec(mov: Seq<char>, n: int) -> Option<OcMove> {
    match parse_list(mov, ',', 65535) {
        Some(v) => if v.len() == 2 && v[0] < n && v[1] < 2 {
            Some(OcMove { cell: v[0] as u16, sym: v[1] as u8 })
        } else {
            None
        },
        None => None,
    }
}

pub fn parse_oc_move(mov: &str, cols: usize, rows: usize) -> (r: Option<OcMove>)
    requires
        cols <= 12,
        rows <= 12,
    ensures
        r == parse_oc_spec(mov@, cols * rows),
        r matches Some(m) ==> (m.cell as int) < cols * rows && m.sym < 2,
{
    proof {
        assert(cols * rows <= 144) by (nonlinear_arith)
            requires
                cols <= 12,
                rows <= 12,
        ;
    }
    let cs = chars_of(mov);
    match parse_u16_list(&cs, ',') {
        Some(p) => {
            proof {
                if p@.len() == 2 {
                    assert(u16s(p@)[0] == p@[0] as int && u16s(p@)[1] == p@[1] as int);
                }
            }
            if p.len() == 2 && (p[0] as usize) < cols * rows && p[1] < 2 {
                Some(OcMove { cell: p[0], sym: p[1] as u8 })
            } else {
                None
            }
        },
        None => None,
    }
}

// Squava, Notakto and Square Up: one stone per turn on an empty cell.

#[derive(Clone, Debug)]
pub struct Squava {
    pub board: Vec<i8>,
    pub cols: usize,
    pub rows: usize,
    pub current: u8,
}

pub open spec fn full(b: Seq<i8>) -> bool {
    forall|i: int| 0 <= i < b.len() ==> b[i] >= 0
}

impl Squava {
    pub open spec fn wf(&self) -> bool {
        &&& shaped(self.board@, self.cols as int, self.rows as int)
        &&& 1 <= self.cols <= 12
        &&& 1 <= self.rows <= 12
        &&& self.current <= 1
    }

    /// Four in a row wins for its owner; failing that, three in a row loses for its
    /// owner; a full board is a draw.
    pub open spec fn term_spec(&self) -> Option<Outcome> {
        match line_symbol_spec(self.board@, self.cols as int, self.rows as int, 4) {
            Some(w) => Some(if w as u8 == self.current { Outcome::Win } else { Outcome::Loss }),
            None => match line_symbol_spec(self.board@, self.cols as int, self.rows as int, 3) {
                Some(w) => Some(if w as u8 == self.current { Outcome::Loss } else { Outcome::Win }),
                None => if full(self.board@) { Some(Outcome::Draw) } else { None },
            },
        }
    }

    pub open spec fn moves_spec(&self) -> Seq<u16> {
        if self.term_spec() is Some { seq![] } else { empties(self.board@) }
    }

    pub fn new(cols: usize, rows: usize) -> (g: Self)
        requires
            1 <= cols <= 12,
            1 <= rows <= 12,
        ensures
            g.wf(),
            g.cols == cols,
            g.rows == rows,
            g.current == 0,
            forall|i: int| 0 <= i < g.board@.len() ==> #[trigger] g.board@[i] == -1,
    {
        Squava { board: empty_board(cols, rows), cols, rows, current: 0 }
    }

    pub fn term(&self) -> (t: Option<Outcome>)
        requires
            self.wf(),
        ensures
            t == self.term_spec(),
    {
        match line_symbol(self.board.as_slice(), self.cols, self.rows, 4) {
            Some(w) => Some(if w as u8 == self.current { Outcome::Win } else { Outcome::Loss }),
            None => match line_symbol(self.board.as_slice(), self.cols, self.rows, 3) {
                Some(w) => Some(if w as u8 == self.current { Outcome::Loss } else { Outcome::Win }),
                None => if is_full(self.board.as_slice()) { Some(Outcome::Draw) } else { None },
            },
        }
    }

    pub fn current_player(&self) -> (p: u8)
        ensures
            p == self.current,
    {
        self.current
    }

    pub fn available_moves(&self) -> (v: Vec<u16>)
        requires
            self.wf(),
        ensures
            v@ == self.moves_spec(),
    {
        if self.term().is_some() {
            return Vec::new();
        }
        empty_cells(&self.board)
    }

    pub fn make_move(&mut self, m: &u16)
        requires
            old(self).wf(),
            (*m as int) < old(self).board@.len(),
        ensures
            final(self).wf(),
            final(self).cols == old(self).cols,
            final(self).rows == old(self).rows,
            final(self).board@ == old(self).board@.update(*m as int, old(self).current as i8),
            final(self).current == 1 - old(self).current,
    {
        self.board.set(*m as usize, self.current as i8);
        self.current = 1 - self.current;
    }

    pub fn board_string(&self) -> (s: String)
        ensures
            s@ == Seq::new(self.board@.len(), |i: int| symbol_char(self.board@[i])),
    {
        board_string(self.board.as_slice())
    }

    pub fn result_string(&self) -> (s: String)
        requires
            self.wf(),
        ensures
            s@ == result_text(self.term_spec(), self.current),
    {
        result_str(self.term(), self.current)
    }

    /// Place on the cell that `mov` names if that is a legal move; false, leaving the
    /// game unchanged, otherwise.
    pub fn apply_text(&mut self, mov: &str) -> (ok: bool)
        requires
            old(self).wf(),
        ensures
            final(self).wf(),
            ok == (parse_cell_spec(mov@, old(self).cols * old(self).rows) matches Some(m) && old(self).moves_spec().contains(m)),
            !ok ==> *final(self) == *old(self),
            ok ==> final(self).board@ == old(self).board@.update(
                parse_cell_spec(mov@, old(self).cols * old(self).rows)->0 as int,
                old(self).current as i8,
            ) && final(self).current == 1 - old(self).current
                && final(self).cols == old(self).cols && final(self).rows == old(self).rows,
    {
        let m = match parse_cell(mov, self.cols, self.rows) {
            Some(m) => m,
            None => {
                return false;
            },
        };
        let moves = self.available_moves();
        if !contains_cell(&moves, m) {
            return false;
        }
        proof {
            lemma_empties(self.board@, self.board@.len() as int, m);
        }
        self.make_move(&m);
        true
    }
}

#[derive(Clone, Debug)]
pub struct Notakto {
    pub board: Vec<i8>,
    pub cols: usize,
    pub rows: usize,
    pub current: u8,
}

impl Notakto {
    pub open spec fn wf(&self) -> bool {
        &&& shaped(self.board@, self.cols as int, self.rows as int)
        &&& 1 <= self.cols <= 12
        &&& 1 <= self.rows <= 12
        &&& self.current <= 1
    }

    /// Whoever completed three marks in a row has lost, so the side to move has won;
    /// a full board without one is a draw.
    pub open spec fn term_spec(&self) -> Option<Outcome> {
        if exists|r: int, c: int| line_at(self.board@, self.cols as int, self.rows as int, r, c, 0, 3) {
            Some(Outcome::Win)
        } else if full(self.board@) {
            Some(Outcome::Draw)
        } else {
            None
        }
    }

    pub open spec fn moves_spec(&self) -> Seq<u16> {
        if self.term_spec() is Some { seq![] } else { empties(self.board@) }
    }

    pub fn new(cols: usize, rows: usize) -> (g: Self)
        requires
            1 <= cols <= 12,
            1 <= rows <= 12,
        ensures
            g.wf(),
            g.cols == cols,
            g.rows == rows,
            g.current == 0,
            forall|i: int| 0 <= i < g.board@.len() ==> #[trigger] g.board@[i] == -1,
    {
        Notakto { board: empty_board(cols, rows), cols, rows, current: 0 }
    }

    pub fn term(&self) -> (t: Option<Outcome>)
        requires
            self.wf(),
        ensures
            t == self.term_spec(),
    {
        if has_line(self.board.as_slice(), self.cols, self.rows, 0, 3) {
            Some(Outcome::Win)
        } else if is_full(self.board.as_slice()) {
            Some(Outcome::Draw)
        } else {
            None
        }
    }

    pub fn current_player(&self) -> (p: u8)
        ensures
            p == self.current,
    {
        self.current
    }

    pub fn available_moves(&self) -> (v: Vec<u16>)
        requires
            self.wf(),
        ensures
            v@ == self.moves_spec(),
    {
        if self.term().is_some() {
            return Vec::new();
        }
        empty_cells(&self.board)
    }

    /// Everyone places the same mark.
    pub fn make_move(&mut self, m: &u16)
        requires
            old(self).wf(),
            (*m as int) < old(self).board@.len(),
        ensures
            final(self).wf(),
            final(self).cols == old(self).cols,
            final(self).rows == old(self).rows,
            final(self).board@ == old(self).board@.update(*m as int, 0),
            final(self).current == 1 - old(self).current,
    {
        self.board.set(*m as usize, 0);
        self.current = 1 - self.current;
    }

    pub fn board_string(&self) -> (s: String)
        ensures
            s@ == Seq::new(self.board@.len(), |i: int| symbol_char(self.board@[i])),
    {
        board_string(self.board.as_slice())
    }

    pub fn result_string(&self) -> (s: String)
        requires
            self.wf(),
        ensures
            s@ == result_text(self.term_spec(), self.current),
    {
        result_str(self.term(), self.current)
    }

    /// Place on the cell that `mov` names if that is a legal move; false, leaving the
    /// game unchanged, otherwise.
    pub fn apply_text(&mut self, mov: &str) -> (ok: bool)
        requires
            old(self).wf(),
        ensures
            final(self).wf(),
            ok == (parse_cell_spec(mov@, old(self).cols * old(self).rows) matches Some(m) && old(self).moves_spec().contains(m)),
            !ok ==> *final(self) == *old(self),
            ok ==> final(self).board@ == old(self).board@.update(parse_cell_spec(mov@, old(self).cols * old(self).rows)->0 as int, 0)
                && final(self).current == 1 - old(self).current
                && final(self).cols == old(self).cols && final(self).rows == old(self).rows,
    {
        let m = match parse_cell(mov, self.cols, self.rows) {
            Some(m) => m,
            None => {
                return false;
            },
        };
        let moves = self.available_moves();
        if !contains_cell(&moves, m) {
            return false;
        }
        proof {
            lemma_empties(self.board@, self.board@.len() as int, m);
        }
        self.make_move(&m);
        true
    }
}

#[derive(Clone, Debug)]
pub struct SquareUp {
    pub board: Vec<i8>,
    pub cols: usize,
    pub rows: usize,
    pub current: u8,
}

impl SquareUp {
    pub open spec fn wf(&self) -> bool {
        &&& shaped(self.board@, self.cols as int, self.rows as int)
        &&& 1 <= self.cols <= 12
        &&& 1 <= self.rows <= 12
        &&& self.current <= 1
    }

    pub open spec fn has_square_spec(&self, p: i8) -> bool {
        exists|r1: int, c1: int, r2: int, c2: int| square_edge(self.board@, self.cols as int, self.rows as int, p, r1, c1, r2, c2)
    }

    /// A square of the first player's stones, then of the second's, wins for its owner;
    /// a full board is a draw.
    pub open spec fn term_spec(&self) -> Option<Outcome> {
        if self.has_square_spec(0) {
            Some(if self.current == 0 { Outcome::Win } else { Outcome::Loss })
        } else if self.has_square_spec(1) {
            Some(if self.current == 1 { Outcome::Win } else { Outcome::Loss })
        } else if full(self.board@) {
            Some(Outcome::Draw)
        } else {
            None
        }
    }

    pub open spec fn moves_spec(&self) -> Seq<u16> {
        if self.term_spec() is Some { seq![] } else { empties(self.board@) }
    }

    pub fn new(cols: usize, rows: usize) -> (g: Self)
        requires
            1 <= cols <= 12,
            1 <= rows <= 12,
        ensures
            g.wf(),
            g.cols == cols,
            g.rows == rows,
            g.current == 0,
            forall|i: int| 0 <= i < g.board@.len() ==> #[trigger] g.board@[i] == -1,
    {
        SquareUp { board: empty_board(cols, rows), cols, rows, current: 0 }
    }

    pub fn term(&self) -> (t: Option<Outcome>)
        requires
            self.wf(),
        ensures
            t == self.term_spec(),
    {
        if has_square(self.board.as_slice(), self.cols, self.rows, 0) {
            return Some(if self.current == 0 { Outcome::Win } else { Outcome::Loss });
        }
        if has_square(self.board.as_slice(), self.cols, self.rows, 1) {
            return Some(if self.current == 1 { Outcome::Win } else { Outcome::Loss });
        }
        if is_full(self.board.as_slice()) {
            Some(Outcome::Draw)
        } else {
            None
        }
    }

    pub fn current_player(&self) -> (p: u8)
        ensures
            p == self.current,
    {
        self.current
    }

    pub fn available_moves(&self) -> (v: Vec<u16>)
        requires
            self.wf(),
        ensures
            v@ == self.moves_spec(),
    {
        if self.term().is_some() {
            return Vec::new();
        }
        empty_cells(&self.board)
    }

    pub fn make_move(&mut self, m: &u16)
        requires
            old(self).wf(),
            (*m as int) < old(self).board@.len(),
        ensures
            final(self).wf(),
            final(self).cols == old(self).cols,
            final(self).rows == old(self).rows,
            final(self).board@ == old(self).board@.update(*m as int, old(self).current as i8),
            final(self).current == 1 - old(self).current,
    {
        self.board.set(*m as usize, self.current as i8);
        self.current = 1 - self.current;
    }

    /// Centre control of the first player less that of the second.
    pub fn eval0(&self) -> (e: i64)
        requires
            self.wf(),
        ensures
            e == center_total(self.board@, self.cols as int, self.rows as int, 0, self.rows as int) - center_total(
                self.board@,
                self.cols as int,
                self.rows as int,
                1,
                self.rows as int,
            ),
    {
        proof {
            assert(self.rows * self.cols * (self.rows + self.cols) <= 3456) by (nonlinear_arith)
                requires
                    self.cols <= 12,
                    self.rows <= 12,
            ;
        }
        center_eval(self.board.as_slice(), self.cols, self.rows, 0) - center_eval(self.board.as_slice(), self.cols, self.rows, 1)
    }

    pub fn board_string(&self) -> (s: String)
        ensures
            s@ == Seq::new(self.board@.len(), |i: int| symbol_char(self.board@[i])),
    {
        board_string(self.board.as_slice())
    }

    pub fn result_string(&self) -> (s: String)
        requires
            self.wf(),
        ensures
            s@ == result_text(self.term_spec(), self.current),
    {
        result_str(self.term(), self.current)
    }

    /// Place on the cell that `mov` names if that is a legal move; false, leaving the
    /// game unchanged, otherwise.
    pub fn apply_text(&mut self, mov: &str) -> (ok: bool)
        requires
            old(self).wf(),
        ensures
            final(self).wf(),
            ok == (parse_cell_spec(mov@, old(self).cols * old(self).rows) matches Some(m) && old(self).moves_spec().contains(m)),
            !ok ==> *final(self) == *old(self),
            ok ==> final(self).board@ == old(self).board@.update(
                parse_cell_spec(mov@, old(self).cols * old(self).rows)->0 as int,
                old(self).current as i8,
            ) && final(self).current == 1 - old(self).current
                && final(self).cols == old(self).cols && final(self).rows == old(self).rows,
    {
        let m = match parse_cell(mov, self.cols, self.rows) {
            Some(m) => m,
            None => {
                return false;
            },
        };
        let moves = self.available_moves();
        if !contains_cell(&moves, m) {
            return false;
        }
        proof {
            lemma_empties(self.board@, self.board@.len() as int, m);
        }
        self.make_move(&m);
        true
    }
}

} // verus!
