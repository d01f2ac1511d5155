//! Bulls & Cows: the code-breaking duel. Each player sets a secret code of `len` digits
//! below `sym`; players alternate guesses; a guess earns bulls (right digit, right
//! place) and cows (right digit, wrong place). First to crack the opponent's code wins.
//!
//! The AI is a consistent-set deducer: from only the feedback the guessing seat has
//! received it enumerates every code consistent with that history and picks the guess
//! that minimises the worst-case remaining candidate count.
use vstd::prelude::*;
use crate::text::{push_char, push_dec, push_all, chars_of, dec};
use crate::rng::{below, seeded};
use rand::rngs::SmallRng;

verus! {

/// Per-player guess cap before a bulls-progress tiebreak.
pub const MAX_ROUNDS: usize = 20;
/// Candidates the minimax scorer partitions against (cost guard).
pub const SCORE_CAP: usize = 1500;
/// Representative sample size for the legal-move list.
pub const LEGAL_SAMPLE: usize = 12;

/// Number of positions among the first `k` where `g` and `c` agree.
pub open spec fn bulls_upto(g: Seq<u8>, c: Seq<u8>, k: int) -> int
    decreases k,
{
    if k <= 0 {
        0
    } else {
        bulls_upto(g, c, k - 1) + if g[k - 1] == c[k - 1] {
            1int
        } else {
            0int
        }
    }
}

/// Bulls: positions (over the shorter of the two) where guess and code agree.
pub open spec fn bulls(g: Seq<u8>, c: Seq<u8>) -> int {
    bulls_upto(g, c, if g.len() < c.len() { g.len() as int } else { c.len() as int })
}

/// Occurrences of `d` among the first `k` entries of `s`.
pub open spec fn occ(s: Seq<u8>, d: int, k: int) -> int
    decreases k,
{
    if k <= 0 {
        0
    } else {
        occ(s, d, k - 1) + if s[k - 1] as int == d {
            1int
        } else {
            0int
        }
    }
}

pub open spec fn min(a: int, b: int) -> int {
    if a < b {
        a
    } else {
        b
    }
}

/// Symbol matches over the digits below `n`: for each digit, the smaller of its counts
/// in guess and code.
pub open spec fn matches_upto(g: Seq<u8>, c: Seq<u8>, n: int) -> int
    decreases n,
{
    if n <= 0 {
        0
    } else {
        matches_upto(g, c, n - 1) + min(occ(g, n - 1, g.len() as int), occ(c, n - 1, c.len() as int))
    }
}

/// Total symbol matches (digits 0..9), repeated digits counted by the smaller count.
pub open spec fn matches(g: Seq<u8>, c: Seq<u8>) -> int {
    matches_upto(g, c, 10)
}

/// Positions among the first `k` where both hold digit `d`.
pub open spec fn bulls_of(g: Seq<u8>, c: Seq<u8>, d: int, k: int) -> int
    decreases k,
{
    if k <= 0 {
        0
    } else {
        bulls_of(g, c, d, k - 1) + if g[k - 1] == c[k - 1] && g[k - 1] as int == d {
            1int
        } else {
            0int
        }
    }
}

pub open spec fn digits_below(s: Seq<u8>, n: int) -> bool {
    forall|i: int| 0 <= i < s.len() ==> (#[trigger] s[i] as int) < n
}

/// Occurrences among the first `k` entries of `s` of each digit below `n`, summed.
pub open spec fn occ_sum(s: Seq<u8>, n: int, k: int) -> int
    decreases n,
{
    if n <= 0 {
        0
    } else {
        occ_sum(s, n - 1, k) + occ(s, n - 1, k)
    }
}

proof fn lemma_bulls_upto_symmetric(g: Seq<u8>, c: Seq<u8>, k: int)
    ensures
        bulls_upto(g, c, k) == bulls_upto(c, g, k),
    decreases k,
{
    if k > 0 {
        lemma_bulls_upto_symmetric(g, c, k - 1);
    }
}

proof fn lemma_matches_upto_symmetric(g: Seq<u8>, c: Seq<u8>, n: int)
    ensures
        matches_upto(g, c, n) == matches_upto(c, g, n),
    decreases n,
{
    if n > 0 {
        lemma_matches_upto_symmetric(g, c, n - 1);
    }
}

proof fn lemma_bulls_upto_self(x: Seq<u8>, k: int)
    requires
        0 <= k,
    ensures
        bulls_upto(x, x, k) == k,
    decreases k,
{
    if k > 0 {
        lemma_bulls_upto_self(x, k - 1);
    }
}

proof fn lemma_matches_upto_self(x: Seq<u8>, n: int)
    ensures
        matches_upto(x, x, n) == occ_sum(x, n, x.len() as int),
    decreases n,
{
    if n > 0 {
        lemma_matches_upto_self(x, n - 1);
    }
}

/// One more entry adds one to the summed counts exactly when it is a digit below `n`.
proof fn lemma_occ_sum_step(x: Seq<u8>, n: int, k: int)
    requires
        k >= 1,
    ensures
        occ_sum(x, n, k) == occ_sum(x, n, k - 1) + if 0 <= (x[k - 1] as int) < n { 1int } else { 0int },
    decreases n,
{
    if n > 0 {
        lemma_occ_sum_step(x, n - 1, k);
    }
}

proof fn lemma_occ_sum_all(x: Seq<u8>, n: int, k: int)
    requires
        digits_below(x, n),
        0 <= k <= x.len(),
    ensures
        occ_sum(x, n, k) == k,
    decreases k,
{
    if k > 0 {
        lemma_occ_sum_all(x, n, k - 1);
        lemma_occ_sum_step(x, n, k);
        assert((x[k - 1] as int) < n);
    } else {
        lemma_occ_sum_zero(x, n);
    }
}

proof fn lemma_occ_sum_zero(x: Seq<u8>, n: int)
    ensures
        occ_sum(x, n, 0) == 0,
    decreases n,
{
    if n > 0 {
        lemma_occ_sum_zero(x, n - 1);
    }
}

/// Feedback is symmetric: scoring `g` against `c` gives the same bulls and matches as
/// scoring `c` against `g`.
pub proof fn lemma_feedback_symmetric(g: Seq<u8>, c: Seq<u8>)
    ensures
        bulls(g, c) == bulls(c, g),
        matches(g, c) == matches(c, g),
{
    lemma_bulls_upto_symmetric(g, c, if g.len() < c.len() { g.len() as int } else { c.len() as int });
    assert((if g.len() < c.len() { g.len() as int } else { c.len() as int }) == (if c.len() < g.len() {
        c.len() as int
    } else {
        g.len() as int
    }));
    lemma_matches_upto_symmetric(g, c, 10);
}

/// A code scored against itself is all bulls and no cows.
pub proof fn lemma_feedback_self(x: Seq<u8>)
    requires
        digits_below(x, 10),
    ensures
        bulls(x, x) == x.len(),
        matches(x, x) - bulls(x, x) == 0,
{
    lemma_bulls_upto_self(x, x.len() as int);
    lemma_matches_upto_self(x, 10);
    lemma_occ_sum_all(x, 10, x.len() as int);
}

proof fn lemma_occ_bounds(s: Seq<u8>, d: int, k: int)
    ensures
        0 <= occ(s, d, k) <= if k < 0 { 0 } else { k },
    decreases k,
{
    if k > 0 {
        lemma_occ_bounds(s, d, k - 1);
    }
}

proof fn lemma_occ_mono(s: Seq<u8>, d: int, k1: int, k2: int)
    requires
        k1 <= k2,
    ensures
        occ(s, d, k1) <= occ(s, d, k2),
    decreases k2 - k1,
{
    if k1 < k2 {
        lemma_occ_mono(s, d, k1, k2 - 1);
        lemma_occ_bounds(s, d, k2 - 1);
    }
}

proof fn lemma_bulls_of_bound(g: Seq<u8>, c: Seq<u8>, d: int, k: int)
    requires
        0 <= k <= g.len(),
        k <= c.len(),
    ensures
        bulls_of(g, c, d, k) <= occ(g, d, k),
        bulls_of(g, c, d, k) <= occ(c, d, k),
        bulls_of(g, c, d, k) >= 0,
    decreases k,
{
    if k > 0 {
        lemma_bulls_of_bound(g, c, d, k - 1);
    }
}

/// Sum over the digits below `n` of the per-digit bulls among the first `k` positions.
pub open spec fn bulls_sum(g: Seq<u8>, c: Seq<u8>, n: int, k: int) -> int
    decreases n,
{
    if n <= 0 {
        0
    } else {
        bulls_sum(g, c, n - 1, k) + bulls_of(g, c, n - 1, k)
    }
}

proof fn lemma_bulls_sum_step(g: Seq<u8>, c: Seq<u8>, n: int, k: int)
    requires
        k >= 1,
        n >= 0,
    ensures
        bulls_sum(g, c, n, k) == bulls_sum(g, c, n, k - 1) + if g[k - 1] == c[k - 1] && (g[k - 1] as int) < n {
            1int
        } else {
            0int
        },
    decreases n,
{
    if n > 0 {
        lemma_bulls_sum_step(g, c, n - 1, k);
    }
}

/// With digits below 10, the bulls split by digit.
proof fn lemma_bulls_split(g: Seq<u8>, c: Seq<u8>, k: int)
    requires
        0 <= k <= g.len(),
        k <= c.len(),
        digits_below(g, 10),
    ensures
        bulls_upto(g, c, k) == bulls_sum(g, c, 10, k),
    decreases k,
{
    if k > 0 {
        lemma_bulls_split(g, c, k - 1);
        lemma_bulls_sum_step(g, c, 10, k);
        assert((g[k - 1] as int) < 10);
    } else {
        lemma_bulls_sum_zero(g, c, 10);
    }
}

proof fn lemma_bulls_sum_zero(g: Seq<u8>, c: Seq<u8>, n: int)
    ensures
        bulls_sum(g, c, n, 0) == 0,
    decreases n,
{
    if n > 0 {
        lemma_bulls_sum_zero(g, c, n - 1);
    }
}

/// Bulls never exceed symbol matches.
proof fn lemma_bulls_le_sum(g: Seq<u8>, c: Seq<u8>, n: int, k: int)
    requires
        0 <= k <= g.len(),
        k <= c.len(),
    ensures
        bulls_sum(g, c, n, k) <= matches_upto(g, c, n),
        0 <= bulls_sum(g, c, n, k),
    decreases n,
{
    if n > 0 {
        lemma_bulls_le_sum(g, c, n - 1, k);
        lemma_bulls_of_bound(g, c, n - 1, k);
        lemma_occ_mono(g, n - 1, k, g.len() as int);
        lemma_occ_mono(c, n - 1, k, c.len() as int);
    }
}

proof fn lemma_matches_bound(g: Seq<u8>, c: Seq<u8>, n: int)
    ensures
        0 <= matches_upto(g, c, n),
    decreases n,
{
    if n > 0 {
        lemma_matches_bound(g, c, n - 1);
        lemma_occ_bounds(g, n - 1, g.len() as int);
        lemma_occ_bounds(c, n - 1, c.len() as int);
    }
}

/// Bulls are at most the symbol matches when the guess holds digits only.
pub proof fn lemma_bulls_le_matches(g: Seq<u8>, c: Seq<u8>)
    requires
        digits_below(g, 10),
    ensures
        0 <= bulls(g, c) <= matches(g, c),
{
    let k = if g.len() < c.len() { g.len() as int } else { c.len() as int };
    lemma_bulls_split(g, c, k);
    lemma_bulls_le_sum(g, c, 10, k);
}

/// Symbol matches never exceed the guess length.
proof fn lemma_matches_le_len(g: Seq<u8>, c: Seq<u8>, n: int)
    requires
        0 <= n <= 10,
        digits_below(g, 10),
    ensures
        matches_upto(g, c, n) <= occ_below(g, n, g.len() as int),
    decreases n,
{
    if n > 0 {
        lemma_matches_le_len(g, c, n - 1);
    }
}

/// Entries among the first `k` of `s` that are below `n`.
pub open spec fn occ_below(s: Seq<u8>, n: int, k: int) -> int
    decreases n,
{
    if n <= 0 {
        0
    } else {
        occ_below(s, n - 1, k) + occ(s, n - 1, k)
    }
}

proof fn lemma_occ_below_step(s: Seq<u8>, n: int, k: int)
    requires
        k >= 1,
        n >= 0,
    ensures
        occ_below(s, n, k) == occ_below(s, n, k - 1) + if (s[k - 1] as int) < n {
            1int
        } else {
            0int
        },
    decreases n,
{
    if n > 0 {
        lemma_occ_below_step(s, n - 1, k);
    }
}

proof fn lemma_occ_below_le(s: Seq<u8>, n: int, k: int)
    requires
        0 <= k <= s.len(),
        n >= 0,
    ensures
        0 <= occ_below(s, n, k) <= k,
    decreases k,
{
    if k > 0 {
        lemma_occ_below_le(s, n, k - 1);
        lemma_occ_below_step(s, n, k);
    } else {
        lemma_occ_below_zero(s, n);
    }
}

proof fn lemma_occ_below_zero(s: Seq<u8>, n: int)
    ensures
        occ_below(s, n, 0) == 0,
    decreases n,
{
    if n > 0 {
        lemma_occ_below_zero(s, n - 1);
    }
}

/// Feedback for `guess` against `code`: `(bulls, cows)`, cows being the symbol
/// matches minus the bulls (repeated digits counted by the smaller count).
pub fn feedback(guess: &[u8], code: &[u8]) -> (r: (u8, u8))
    requires
        guess@.len() <= 255,
        code@.len() <= 255,
        digits_below(guess@, 10),
    ensures
        r.0 == bulls(guess@, code@),
        r.1 == matches(guess@, code@) - bulls(guess@, code@),
        r.0 as int + r.1 as int <= guess@.len(),
{
    let k = if guess.len() < code.len() {
        guess.len()
    } else {
        code.len()
    };
    let mut b: u8 = 0;
    let mut i: usize = 0;
    while i < k
        invariant
            k <= guess@.len(),
            k <= code@.len(),
            k <= 255,
            i <= k,
            b == bulls_upto(guess@, code@, i as int),
            b <= i,
        decreases k - i,
    {
        if guess[i] == code[i] {
            b += 1;
        }
        i += 1;
    }
    let mut total: u32 = 0;
    let mut d: u8 = 0;
    while d < 10
        invariant
            guess@.len() <= 255,
            code@.len() <= 255,
            digits_below(guess@, 10),
            d <= 10,
            total == matches_upto(guess@, code@, d as int),
            total <= occ_below(guess@, d as int, guess@.len() as int),
        decreases 10 - d,
    {
        let gc = count_digit(guess, d);
        let cc = count_digit(code, d);
        proof {
            lemma_occ_below_le(guess@, d as int + 1, guess@.len() as int);
        }
        total += if gc < cc {
            gc
        } else {
            cc
        };
        d += 1;
    }
    proof {
        lemma_bulls_le_matches(guess@, code@);
        lemma_occ_below_le(guess@, 10, guess@.len() as int);
    }
    (b, (total as u8) - b)
}

/// Occurrences of `d` in `s`.
fn count_digit(s: &[u8], d: u8) -> (n: u32)
    requires
        s@.len() <= 255,
    ensures
        n == occ(s@, d as int, s@.len() as int),
        n <= s@.len(),
{
    let mut n: u32 = 0;
    let mut i: usize = 0;
    while i < s.len()
        invariant
            s@.len() <= 255,
            i <= s@.len(),
            n == occ(s@, d as int, i as int),
            n <= i,
        decreases s@.len() - i,
    {
        if s[i] == d {
            n += 1;
        }
        i += 1;
    }
    n
}

/// The digits of `code` are pairwise different.
pub open spec fn distinct(code: Seq<u8>) -> bool {
    forall|i: int, j: int| 0 <= i < j < code.len() ==> code[i] != code[j]
}

/// Are all digits of `code` different?
pub fn all_distinct(code: &[u8]) -> (res: bool)
    requires
        digits_below(code@, 10),
    ensures
        res == distinct(code@),
{
    let mut seen: [bool; 10] = [false; 10];
    let mut i: usize = 0;
    while i < code.len()
        invariant
            digits_below(code@, 10),
            i <= code@.len(),
            distinct(code@.take(i as int)),
            forall|d: int| 0 <= d < 10 ==> (#[trigger] seen@[d] <==> exists|j: int| 0 <= j < i && code@[j] as int == d),
        decreases code@.len() - i,
    {
        let d = code[i] as usize;
        if seen[d] {
            proof {
                let j = choose|j: int| 0 <= j < i && code@[j] as int == d;
                assert(code@[j] == code@[i as int]);
            }
            return false;
        }
        seen[d] = true;
        proof {
            assert forall|a: int, b: int| 0 <= a < b < i + 1 implies #[trigger] code@.take(i + 1)[a] != #[trigger] code@.take(i + 1)[b] by {
                if b == i {
                    assert(!seen@[code@[a] as int] || code@[a] != code@[i as int]);
                } else {
                    assert(code@.take(i as int)[a] == code@[a]);
                    assert(code@.take(i as int)[b] == code@[b]);
                }
            }
        }
        i += 1;
    }
    assert(code@.take(code@.len() as int) =~= code@);
    true
}

pub type Entry = (Vec<u8>, u8, u8);

#[derive(Clone, Debug)]
pub struct BullsCows {
    pub len: usize,
    pub sym: usize,
    pub repeats: bool,
    /// Secret codes, one per seat; `None` until that seat has set it.
    pub codes: [Option<Vec<u8>>; 2],
    /// Per-seat guess log: `(guess, bulls, cows)`, in order. Public information.
    pub guesses: [Vec<Entry>; 2],
    pub current: u8,
    pub winner: Option<u8>,
}

impl BullsCows {
    /// `c` is a legal code: `len` digits below `sym`, distinct unless repeats are allowed.
    pub open spec fn valid_code(&self, c: Seq<u8>) -> bool {
        &&& c.len() == self.len
        &&& digits_below(c, self.sym as int)
        &&& (self.repeats || distinct(c))
    }

    pub open spec fn code_ok(&self, c: Option<Vec<u8>>) -> bool {
        c matches Some(v) ==> self.valid_code(v@)
    }

    pub open spec fn log_ok(&self, log: Seq<Entry>) -> bool {
        forall|j: int| 0 <= j < log.len() ==> #[trigger] log[j].0@.len() == self.len && digits_below(log[j].0@, 10)
    }

    pub open spec fn wf(&self) -> bool {
        &&& 3 <= self.len <= 5
        &&& 6 <= self.sym <= 10
        &&& self.current <= 1
        &&& (self.winner matches Some(w) ==> w <= 1)
        &&& self.code_ok(self.codes@[0])
        &&& self.code_ok(self.codes@[1])
        &&& self.log_ok(self.guesses@[0]@)
        &&& self.log_ok(self.guesses@[1]@)
    }

    pub open spec fn both_set_spec(&self) -> bool {
        self.codes@[0] is Some && self.codes@[1] is Some
    }

    pub open spec fn cap_reached_spec(&self) -> bool {
        self.guesses@[0]@.len() >= MAX_ROUNDS && self.guesses@[1]@.len() >= MAX_ROUNDS
    }

    pub open spec fn terminal_spec(&self) -> bool {
        self.winner is Some || self.cap_reached_spec()
    }

    pub fn new(len: usize, sym: usize, repeats: bool) -> (g: Self)
        ensures
            g.wf(),
            g.len == (if len < 3 { 3 } else if len > 5 { 5 } else { len }),
            g.sym == (if sym < 6 { 6 } else if sym > 10 { 10 } else { sym }),
            g.repeats == repeats,
            g.codes@[0] is None,
            g.codes@[1] is None,
            g.guesses@[0]@.len() == 0,
            g.guesses@[1]@.len() == 0,
            g.current == 0,
            g.winner is None,
    {
        let len = if len < 3 {
            3
        } else if len > 5 {
            5
        } else {
            len
        };
        let sym = if sym < 6 {
            6
        } else if sym > 10 {
            10
        } else {
            sym
        };
        BullsCows { len, sym, repeats, codes: [None, None], guesses: [Vec::new(), Vec::new()], current: 0, winner: None }
    }

    pub fn both_set(&self) -> (b: bool)
        ensures
            b == self.both_set_spec(),
    {
        self.codes[0].is_some() && self.codes[1].is_some()
    }

    pub fn cap_reached(&self) -> (b: bool)
        ensures
            b == self.cap_reached_spec(),
    {
        self.guesses[0].len() >= MAX_ROUNDS && self.guesses[1].len() >= MAX_ROUNDS
    }

    pub fn is_terminal(&self) -> (b: bool)
        ensures
            b == self.terminal_spec(),
    {
        self.winner.is_some() || self.cap_reached()
    }
}

/// Largest bulls count in the first `k` entries of a log (0 when empty).
pub open spec fn best_bulls(log: Seq<Entry>, k: int) -> int
    decreases k,
{
    if k <= 0 {
        0
    } else {
        let b = best_bulls(log, k - 1);
        if log[k - 1].1 as int > b {
            log[k - 1].1 as int
        } else {
            b
        }
    }
}

pub open spec fn draw_text() -> Seq<char> {
    seq!['D', 'r', 'a', 'w']
}

/// Text of a code: one decimal digit per entry.
pub open spec fn code_text(c: Seq<u8>) -> Seq<char> {
    Seq::new(c.len(), |i: int| crate::text::digit_char(c[i] as int))
}

/// The code named by `cs`: exactly `len` characters, each a decimal digit below `sym`,
/// pairwise different unless repeats are allowed.
pub open spec fn code_of_text(len: int, sym: int, repeats: bool, cs: Seq<char>) -> Option<Seq<u8>> {
    let v = Seq::new(cs.len(), |i: int| (cs[i] as int - '0' as int) as u8);
    if cs.len() == len && (forall|i: int| 0 <= i < cs.len() ==> '0' <= #[trigger] cs[i] <= '9' && (cs[i] as int - '0' as int) < sym)
        && (repeats || distinct(v)) {
        Some(v)
    } else {
        None
    }
}

impl BullsCows {
    fn best_bulls_of(log: &Vec<Entry>) -> (b: u8)
        ensures
            b == best_bulls(log@, log@.len() as int),
    {
        let mut b: u8 = 0;
        let mut i: usize = 0;
        while i < log.len()
            invariant
                i <= log@.len(),
                b == best_bulls(log@, i as int),
            decreases log@.len() - i,
        {
            if log[i].1 > b {
                b = log[i].1;
            }
            i += 1;
        }
        b
    }

    pub open spec fn result_text(&self) -> Seq<char> {
        match self.winner {
            Some(w) => dec((w + 1) as nat),
            None => if self.cap_reached_spec() {
                let p0 = best_bulls(self.guesses@[0]@, self.guesses@[0]@.len() as int);
                let p1 = best_bulls(self.guesses@[1]@, self.guesses@[1]@.len() as int);
                if p0 > p1 {
                    seq!['1']
                } else if p0 < p1 {
                    seq!['2']
                } else {
                    draw_text()
                }
            } else {
                Seq::empty()
            },
        }
    }

    /// `""` in progress, `"Draw"`, or a 1-indexed winner-seat digit.
    pub fn result(&self) -> (s: String)
        ensures
            s@ == self.result_text(),
    {
        let mut s = String::new();
        if let Some(w) = self.winner {
            push_dec(&mut s, w as u64 + 1);
            assert(s@ =~= self.result_text());
            return s;
        }
        if self.cap_reached() {
            let p0 = Self::best_bulls_of(&self.guesses[0]);
            let p1 = Self::best_bulls_of(&self.guesses[1]);
            if p0 > p1 {
                push_char(&mut s, '1');
            } else if p0 < p1 {
                push_char(&mut s, '2');
            } else {
                push_char(&mut s, 'D');
                push_char(&mut s, 'r');
                push_char(&mut s, 'a');
                push_char(&mut s, 'w');
            }
        }
        assert(s@ =~= self.result_text());
        s
    }

    /// Parse a code from the characters `cs[lo..]`.
    fn parse_code_chars(&self, cs: &Vec<char>, lo: usize) -> (r: Option<Vec<u8>>)
        requires
            self.wf(),
            lo <= cs@.len(),
        ensures
            r matches Some(v) ==> code_of_text(self.len as int, self.sym as int, self.repeats, cs@.subrange(lo as int, cs@.len() as int))
                == Some(v@),
            r is None ==> code_of_text(self.len as int, self.sym as int, self.repeats, cs@.subrange(lo as int, cs@.len() as int)) is None,
            r matches Some(v) ==> self.valid_code(v@),
    {
        let ghost t = cs@.subrange(lo as int, cs@.len() as int);
        if cs.len() - lo != self.len {
            return None;
        }
        let mut out: Vec<u8> = Vec::new();
        let mut i = lo;
        while i < cs.len()
            invariant
                self.wf(),
                lo <= i <= cs@.len(),
                t == cs@.subrange(lo as int, cs@.len() as int),
                t.len() == self.len,
                out@.len() == i - lo,
                forall|j: int| 0 <= j < i - lo ==> '0' <= #[trigger] t[j] <= '9' && (t[j] as int - '0' as int) < self.sym,
                forall|j: int| 0 <= j < i - lo ==> #[trigger] out@[j] == (t[j] as int - '0' as int) as u8,
            decreases cs@.len() - i,
        {
            let ch = cs[i];
            if !('0' <= ch && ch <= '9') {
                assert(t[i - lo] == ch);
                return None;
            }
            let d = (ch as u32 - '0' as u32) as usize;
            if d >= self.sym {
                assert(t[i - lo] == ch);
                return None;
            }
            out.push(d as u8);
            i += 1;
        }
        let ghost v = Seq::new(t.len(), |j: int| (t[j] as int - '0' as int) as u8);
        assert(out@ =~= v);
        assert(digits_below(out@, self.sym as int));
        if !self.repeats && !all_distinct(&out) {
            return None;
        }
        Some(out)
    }

    /// Validate a code string: exactly `len` digits, each below `sym`, distinct unless
    /// `repeats`. Returns the parsed digits.
    pub fn parse_code(&self, s: &str) -> (r: Option<Vec<u8>>)
        requires
            self.wf(),
        ensures
            r matches Some(v) ==> code_of_text(self.len as int, self.sym as int, self.repeats, s@) == Some(v@),
            r is None ==> code_of_text(self.len as int, self.sym as int, self.repeats, s@) is None,
    {
        let cs = chars_of(s);
        assert(cs@.subrange(0, cs@.len() as int) =~= cs@);
        self.parse_code_chars(&cs, 0)
    }

    /// One digit character per entry of `code`.
    pub fn code_str(code: &[u8]) -> (s: String)
        requires
            digits_below(code@, 10),
        ensures
            s@ == code_text(code@),
    {
        let mut s = String::new();
        push_code(&mut s, code);
        assert(s@ =~= code_text(code@));
        s
    }
}

/// Appends the digit characters of `code`.
fn push_code(s: &mut String, code: &[u8])
    requires
        digits_below(code@, 10),
    ensures
        final(s)@ == old(s)@ + code_text(code@),
{
    let ghost s0 = s@;
    let mut i: usize = 0;
    while i < code.len()
        invariant
            digits_below(code@, 10),
            i <= code@.len(),
            s@ == s0 + code_text(code@.take(i as int)),
        decreases code@.len() - i,
    {
        let c = digit_char_exec(code[i]);
        push_char(s, c);
        i += 1;
        assert(s@ =~= s0 + code_text(code@.take(i as int)));
    }
    assert(code@.take(code@.len() as int) =~= code@);
}

fn digit_char_exec(d: u8) -> (c: char)
    requires
        d < 10,
    ensures
        c == crate::text::digit_char(d as int),
{
    match d {
        0 => '0',
        1 => '1',
        2 => '2',
        3 => '3',
        4 => '4',
        5 => '5',
        6 => '6',
        7 => '7',
        8 => '8',
        _ => '9',
    }
}

pub open spec fn set_prefix() -> Seq<char> {
    seq!['s', 'e', 't', ':']
}

pub open spec fn guess_prefix() -> Seq<char> {
    seq!['g', ':']
}

pub open spec fn starts_with(cs: Seq<char>, p: Seq<char>) -> bool {
    cs.len() >= p.len() && cs.take(p.len() as int) == p
}

pub open spec fn rest(cs: Seq<char>, k: int) -> Seq<char> {
    cs.subrange(k, cs.len() as int)
}

fn has_prefix(cs: &Vec<char>, p: &[char]) -> (b: bool)
    ensures
        b == starts_with(cs@, p@),
{
    if cs.len() < p.len() {
        return false;
    }
    let mut i: usize = 0;
    while i < p.len()
        invariant
            cs@.len() >= p@.len(),
            i <= p@.len(),
            forall|j: int| 0 <= j < i ==> cs@[j] == p@[j],
        decreases p@.len() - i,
    {
        if cs[i] != p[i] {
            assert(cs@.take(p@.len() as int)[i as int] == cs@[i as int]);
            return false;
        }
        i += 1;
    }
    assert(cs@.take(p@.len() as int) =~= p@);
    true
}

impl BullsCows {
    pub open spec fn target(&self, seat: int) -> Seq<u8> {
        self.codes@[1 - seat]->0@
    }

    /// The move text is accepted: a `set:` code for a seat without one during setup, or
    /// a `g:` guess once both codes are set, and the game is not over.
    pub open spec fn accepts(&self, cs: Seq<char>) -> bool {
        &&& !self.terminal_spec()
        &&& {
            ||| (starts_with(cs, set_prefix()) && !self.both_set_spec() && self.codes@[self.current as int] is None && code_of_text(
                self.len as int,
                self.sym as int,
                self.repeats,
                rest(cs, 4),
            ) is Some)
            ||| (!starts_with(cs, set_prefix()) && starts_with(cs, guess_prefix()) && self.both_set_spec() && code_of_text(
                self.len as int,
                self.sym as int,
                self.repeats,
                rest(cs, 2),
            ) is Some)
        }
    }

    /// Apply a move string (`"set:0123"` or `"g:4567"`). Returns false, leaving the game
    /// unchanged, if illegal or out of phase.
    pub fn apply(&mut self, mov: &str) -> (ok: bool)
        requires
            old(self).wf(),
        ensures
            final(self).wf(),
            ok == old(self).accepts(mov@),
            !ok ==> *final(self) == *old(self),
            final(self).len == old(self).len,
            final(self).sym == old(self).sym,
            final(self).repeats == old(self).repeats,
            ok && starts_with(mov@, set_prefix()) ==> {
                let seat = old(self).current as int;
                &&& final(self).codes@[seat] matches Some(v) && Some(v@) == code_of_text(
                    old(self).len as int,
                    old(self).sym as int,
                    old(self).repeats,
                    rest(mov@, 4),
                )
                &&& final(self).codes@[1 - seat] == old(self).codes@[1 - seat]
                &&& final(self).guesses == old(self).guesses
                &&& final(self).winner == old(self).winner
                &&& final(self).current == if final(self).both_set_spec() { 0int } else { 1 - old(self).current }
            },
            ok && !starts_with(mov@, set_prefix()) ==> {
                let seat = old(self).current as int;
                let g = code_of_text(old(self).len as int, old(self).sym as int, old(self).repeats, rest(mov@, 2))->0;
                let b = bulls(g, old(self).target(seat));
                let log = final(self).guesses@[seat]@;
                let log0 = old(self).guesses@[seat]@;
                &&& final(self).codes == old(self).codes
                &&& final(self).guesses@[1 - seat] == old(self).guesses@[1 - seat]
                &&& log.len() == log0.len() + 1
                &&& log.take(log0.len() as int) == log0
                &&& log.last().0@ == g
                &&& log.last().1 == b
                &&& log.last().2 == matches(g, old(self).target(seat)) - b
                &&& if b == old(self).len {
                    final(self).winner == Some(old(self).current) && final(self).current == old(self).current
                } else {
                    &&& final(self).winner == old(self).winner
                    &&& final(self).current == if final(self).cap_reached_spec() { old(self).current as int } else { 1 - old(self).current }
                }
            },
    {
        if self.is_terminal() {
            return false;
        }
        let seat = self.current as usize;
        let cs = chars_of(mov);
        let set_p: [char; 4] = ['s', 'e', 't', ':'];
        let guess_p: [char; 2] = ['g', ':'];
        assert(set_p@ == set_prefix());
        assert(guess_p@ == guess_prefix());
        if has_prefix(&cs, &set_p) {
            if self.both_set() || self.codes[seat].is_some() {
                return false;
            }
            let code = match self.parse_code_chars(&cs, 4) {
                Some(c) => c,
                None => return false,
            };
            self.codes[seat] = Some(code);
            self.current = if self.both_set() { 0 } else { 1 - self.current };
            true
        } else if has_prefix(&cs, &guess_p) {
            if !self.both_set() {
                return false;
            }
            let guess = match self.parse_code_chars(&cs, 2) {
                Some(c) => c,
                None => return false,
            };
            let (b, c) = match &self.codes[1 - seat] {
                Some(t) => feedback(guess.as_slice(), t.as_slice()),
                None => {
                    assert(false);
                    (0, 0)
                },
            };
            let ghost log0 = self.guesses@[seat as int]@;
            let mut log: Vec<Entry> = Vec::new();
            std::mem::swap(&mut log, &mut self.guesses[seat]);
            log.push((guess, b, c));
            self.guesses[seat] = log;
            if b as usize == self.len {
                self.winner = Some(self.current);
            } else if !self.cap_reached() {
                self.current = 1 - self.current;
            }
            proof {
                assert(self.guesses@[seat as int]@.take(log0.len() as int) =~= log0);
            }
            true
        } else {
            false
        }
    }
}

pub open spec fn entry_text(e: Entry) -> Seq<char> {
    code_text(e.0@) + seq![':'] + dec(e.1 as nat) + seq![':'] + dec(e.2 as nat)
}

/// Log entries as `digits:bulls:cows`, joined by `;`.
pub open spec fn rows_text(log: Seq<Entry>) -> Seq<char>
    decreases log.len(),
{
    if log.len() == 0 {
        Seq::empty()
    } else if log.len() == 1 {
        entry_text(log[0])
    } else {
        rows_text(log.drop_last()).push(';') + entry_text(log.last())
    }
}

impl BullsCows {
    pub open spec fn phase_text(&self) -> Seq<char> {
        if self.terminal_spec() {
            seq!['o', 'v', 'e', 'r']
        } else if self.both_set_spec() {
            seq!['g', 'u', 'e', 's', 's']
        } else {
            seq!['s', 'e', 't']
        }
    }

    pub open spec fn winner_text(&self) -> Seq<char> {
        match self.winner {
            Some(w) => dec(w as nat),
            None => if self.terminal_spec() {
                seq!['d', 'r', 'a', 'w']
            } else {
                Seq::empty()
            },
        }
    }

    pub open spec fn code_field(c: Option<Vec<u8>>) -> Seq<char> {
        match c {
            Some(v) => code_text(v@),
            None => Seq::empty(),
        }
    }

    /// Board text for `seat`'s eyes:
    /// `phase|len|sym|rep|cur|winner|mycode|oppcode|myrows|opprows`. The opponent's code
    /// shows only once the game is over.
    pub open spec fn render_text(&self, seat: int) -> Seq<char> {
        let bar = seq!['|'];
        self.phase_text() + bar + dec(self.len as nat) + bar + dec(self.sym as nat) + bar + seq![
            if self.repeats {
                '1'
            } else {
                '0'
            },
        ] + bar + dec(self.current as nat) + bar + self.winner_text() + bar + Self::code_field(self.codes@[seat]) + bar + (
        if self.terminal_spec() {
            Self::code_field(self.codes@[1 - seat])
        } else {
            Seq::empty()
        }) + bar + rows_text(self.guesses@[seat]@) + bar + rows_text(self.guesses@[1 - seat]@)
    }

    fn push_rows(s: &mut String, log: &Vec<Entry>)
        requires
            forall|j: int| 0 <= j < log@.len() ==> digits_below(#[trigger] log@[j].0@, 10),
        ensures
            final(s)@ == old(s)@ + rows_text(log@),
    {
        let ghost s0 = s@;
        let mut i: usize = 0;
        while i < log.len()
            invariant
                forall|j: int| 0 <= j < log@.len() ==> digits_below(#[trigger] log@[j].0@, 10),
                i <= log@.len(),
                s@ == s0 + rows_text(log@.take(i as int)),
            decreases log@.len() - i,
        {
            let ghost before = s@;
            if i > 0 {
                push_char(s, ';');
            }
            assert(digits_below(log@[i as int].0@, 10));
            push_code(s, log[i].0.as_slice());
            push_char(s, ':');
            push_dec(s, log[i].1 as u64);
            push_char(s, ':');
            push_dec(s, log[i].2 as u64);
            proof {
                let t = log@.take(i + 1);
                assert(t.drop_last() =~= log@.take(i as int));
                assert(t.last() == log@[i as int]);
                assert(s@ =~= s0 + rows_text(t));
            }
            i += 1;
        }
        assert(log@.take(log@.len() as int) =~= log@);
    }

    fn push_code_field(s: &mut String, c: &Option<Vec<u8>>)
        requires
            c matches Some(v) ==> digits_below(v@, 10),
        ensures
            final(s)@ == old(s)@ + Self::code_field(*c),
    {
        match c {
            Some(v) => push_code(s, v.as_slice()),
            None => {
                assert(old(s)@ + Self::code_field(*c) =~= old(s)@);
            },
        }
    }

    /// Board string for `seat`'s eyes only (see `render_text`).
    pub fn render(&self, seat: usize) -> (s: String)
        requires
            self.wf(),
        ensures
            s@ == self.render_text(if seat > 1 { 1 } else { seat as int }),
    {
        let seat = if seat > 1 { 1 } else { seat };
        let over = self.is_terminal();
        let mut s = String::new();
        if over {
            push_all(&mut s, &['o', 'v', 'e', 'r']);
        } else if self.both_set() {
            push_all(&mut s, &['g', 'u', 'e', 's', 's']);
        } else {
            push_all(&mut s, &['s', 'e', 't']);
        }
        assert(s@ =~= self.phase_text());
        let ghost bar = seq!['|'];
        let ghost a1 = self.phase_text() + bar + dec(self.len as nat) + bar + dec(self.sym as nat) + bar;
        push_char(&mut s, '|');
        push_dec(&mut s, self.len as u64);
        push_char(&mut s, '|');
        push_dec(&mut s, self.sym as u64);
        push_char(&mut s, '|');
        assert(s@ =~= a1);
        let ghost a2 = a1 + seq![if self.repeats { '1' } else { '0' }] + bar + dec(self.current as nat) + bar;
        push_char(&mut s, if self.repeats { '1' } else { '0' });
        push_char(&mut s, '|');
        push_dec(&mut s, self.current as u64);
        push_char(&mut s, '|');
        assert(s@ =~= a2);
        let ghost a3 = a2 + self.winner_text() + bar;
        match self.winner {
            Some(w) => push_dec(&mut s, w as u64),
            None => {
                if over {
                    push_all(&mut s, &['d', 'r', 'a', 'w']);
                }
            },
        }
        push_char(&mut s, '|');
        assert(s@ =~= a3);
        let ghost a4 = a3 + Self::code_field(self.codes@[seat as int]) + bar;
        Self::push_code_field(&mut s, &self.codes[seat]);
        push_char(&mut s, '|');
        assert(s@ =~= a4);
        let ghost a5 = a4 + (if self.terminal_spec() {
            Self::code_field(self.codes@[1 - seat])
        } else {
            Seq::empty()
        }) + bar;
        if over {
            Self::push_code_field(&mut s, &self.codes[1 - seat]);
        }
        push_char(&mut s, '|');
        assert(s@ =~= a5);
        Self::push_rows(&mut s, &self.guesses[seat]);
        push_char(&mut s, '|');
        Self::push_rows(&mut s, &self.guesses[1 - seat]);
        proof {
            assert(s@ =~= a5 + rows_text(self.guesses@[seat as int]@) + bar + rows_text(self.guesses@[1 - seat]@));
        }
        s
    }
}

/// Odometer rank of a code from position `k` on: `c[k] + sym * (c[k + 1] + sym * ...)`.
pub open spec fn rank_from(c: Seq<u8>, sym: int, k: int) -> int
    decreases c.len() - k,
{
    if k >= c.len() || k < 0 {
        0
    } else {
        c[k] as int + sym * rank_from(c, sym, k + 1)
    }
}

pub open spec fn rank(c: Seq<u8>, sym: int) -> int {
    rank_from(c, sym, 0)
}

proof fn lemma_rank_nonneg(c: Seq<u8>, sym: int, k: int)
    requires
        sym >= 1,
    ensures
        rank_from(c, sym, k) >= 0,
    decreases c.len() - k,
{
    if 0 <= k < c.len() {
        lemma_rank_nonneg(c, sym, k + 1);
        assert(sym * rank_from(c, sym, k + 1) >= 0) by (nonlinear_arith)
            requires
                sym >= 1,
                rank_from(c, sym, k + 1) >= 0,
        ;
    }
}

/// Codes of one length with digits below `sym` and equal rank are equal.
proof fn lemma_rank_injective(a: Seq<u8>, b: Seq<u8>, sym: int, k: int)
    requires
        sym >= 1,
        a.len() == b.len(),
        0 <= k <= a.len(),
        digits_below(a, sym),
        digits_below(b, sym),
        rank_from(a, sym, k) == rank_from(b, sym, k),
    ensures
        a.subrange(k, a.len() as int) == b.subrange(k, b.len() as int),
    decreases a.len() - k,
{
    if k < a.len() {
        lemma_rank_nonneg(a, sym, k + 1);
        lemma_rank_nonneg(b, sym, k + 1);
        let ra = rank_from(a, sym, k + 1);
        let rb = rank_from(b, sym, k + 1);
        assert(sym * ra == ra * sym) by (nonlinear_arith);
        assert(sym * rb == rb * sym) by (nonlinear_arith);
        vstd::arithmetic::div_mod::lemma_fundamental_div_mod_converse(rank_from(a, sym, k), sym, ra, a[k] as int);
        vstd::arithmetic::div_mod::lemma_fundamental_div_mod_converse(rank_from(b, sym, k), sym, rb, b[k] as int);
        lemma_rank_injective(a, b, sym, k + 1);
        assert(a.subrange(k, a.len() as int) =~= seq![a[k]] + a.subrange(k + 1, a.len() as int));
        assert(b.subrange(k, b.len() as int) =~= seq![b[k]] + b.subrange(k + 1, b.len() as int));
    } else {
        assert(a.subrange(k, a.len() as int) =~= b.subrange(k, b.len() as int));
    }
}

/// A code's rank is at most the rank of the all-`(sym - 1)` code of the same length.
proof fn lemma_rank_le_max(c: Seq<u8>, m: Seq<u8>, sym: int, k: int)
    requires
        sym >= 1,
        c.len() == m.len(),
        digits_below(c, sym),
        forall|i: int| 0 <= i < m.len() ==> #[trigger] m[i] as int == sym - 1,
    ensures
        rank_from(c, sym, k) <= rank_from(m, sym, k),
    decreases c.len() - k,
{
    if 0 <= k < c.len() {
        lemma_rank_le_max(c, m, sym, k + 1);
        assert(sym * rank_from(c, sym, k + 1) <= sym * rank_from(m, sym, k + 1)) by (nonlinear_arith)
            requires
                sym >= 1,
                rank_from(c, sym, k + 1) <= rank_from(m, sym, k + 1),
        ;
    }
}

/// Ranks only read the digits from `k` on.
proof fn lemma_rank_from_ext(a: Seq<u8>, b: Seq<u8>, sym: int, k: int)
    requires
        a.len() == b.len(),
        0 <= k,
        forall|i: int| k <= i < a.len() ==> a[i] == b[i],
    ensures
        rank_from(a, sym, k) == rank_from(b, sym, k),
    decreases a.len() - k,
{
    if k < a.len() {
        lemma_rank_from_ext(a, b, sym, k + 1);
    }
}

impl BullsCows {
    /// `c` is a legal code that gives every recorded guess of `log` its recorded feedback.
    pub open spec fn consistent(&self, c: Seq<u8>, log: Seq<Entry>) -> bool {
        &&& self.valid_code(c)
        &&& forall|j: int|
            0 <= j < log.len() ==> bulls(#[trigger] log[j].0@, c) == log[j].1 as int && matches(log[j].0@, c) - bulls(log[j].0@, c)
                == log[j].2 as int
    }

    /// Does `cur` fit every entry of the log?
    fn fits_log(&self, log: &Vec<Entry>, cur: &Vec<u8>) -> (b: bool)
        requires
            self.wf(),
            self.log_ok(log@),
            cur@.len() == self.len,
        ensures
            b == forall|j: int|
                0 <= j < log@.len() ==> bulls(#[trigger] log@[j].0@, cur@) == log@[j].1 as int && matches(log@[j].0@, cur@) - bulls(
                    log@[j].0@,
                    cur@,
                ) == log@[j].2 as int,
    {
        let mut j: usize = 0;
        while j < log.len()
            invariant
                self.wf(),
                self.log_ok(log@),
                cur@.len() == self.len,
                j <= log@.len(),
                forall|k: int|
                    0 <= k < j ==> bulls(#[trigger] log@[k].0@, cur@) == log@[k].1 as int && matches(log@[k].0@, cur@) - bulls(
                        log@[k].0@,
                        cur@,
                    ) == log@[k].2 as int,
            decreases log@.len() - j,
        {
            assert(log@[j as int].0@.len() == self.len && digits_below(log@[j as int].0@, 10));
            let (b, c) = feedback(log[j].0.as_slice(), cur.as_slice());
            if b != log[j].1 || c != log[j].2 {
                return false;
            }
            j += 1;
        }
        true
    }

    /// Every code consistent with `seat`'s own guess and feedback log, in increasing
    /// odometer rank. Reads only `guesses[seat]`, never a stored code.
    pub fn consistent_codes(&self, seat: usize) -> (out: Vec<Vec<u8>>)
        requires
            self.wf(),
            seat <= 1,
        ensures
            forall|i: int| 0 <= i < out@.len() ==> self.consistent(#[trigger] out@[i]@, self.guesses@[seat as int]@),
            forall|i: int, j: int|
                0 <= i < j < out@.len() ==> rank(#[trigger] out@[i]@, self.sym as int) < rank(#[trigger] out@[j]@, self.sym as int),
            forall|c: Seq<u8>| #[trigger] self.consistent(c, self.guesses@[seat as int]@) ==> exists|i: int| 0 <= i < out@.len() && #[trigger] out@[i]@ == c,
    {
        let ghost sym = self.sym as int;
        let ghost log = self.guesses@[seat as int]@;
        let hist = &self.guesses[seat];
        let mut out: Vec<Vec<u8>> = Vec::new();
        let mut cur: Vec<u8> = Vec::new();
        let mut z: usize = 0;
        while z < self.len
            invariant
                z <= self.len,
                cur@.len() == z,
                forall|i: int| 0 <= i < z ==> #[trigger] cur@[i] == 0,
            decreases self.len - z,
        {
            cur.push(0);
            z += 1;
        }
        let ghost top = Seq::new(self.len as nat, |i: int| (self.sym - 1) as u8);
        proof {
            lemma_rank_zero(cur@, sym, 0);
            lemma_rank_nonneg(top, sym, 0);
            assert forall|c: Seq<u8>| #[trigger] self.consistent(c, log) implies rank(c, sym) >= 0 by {
                lemma_rank_nonneg(c, sym, 0);
            }
            if seat == 0 {
                assert(self.log_ok(log));
            } else {
                assert(self.log_ok(log));
            }
        }
        loop
            invariant
                self.wf(),
                self.log_ok(log),
                forall|c: Seq<u8>| #[trigger] self.consistent(c, log) ==> rank(c, sym) >= 0,
                sym == self.sym,
                log == self.guesses@[seat as int]@,
                *hist == self.guesses@[seat as int],
                top.len() == self.len,
                forall|i: int| 0 <= i < top.len() ==> #[trigger] top[i] as int == sym - 1,
                cur@.len() == self.len,
                digits_below(cur@, sym),
                0 <= rank(cur@, sym) <= rank(top, sym),
                forall|i: int| 0 <= i < out@.len() ==> self.consistent(#[trigger] out@[i]@, log),
                forall|i: int| 0 <= i < out@.len() ==> rank(#[trigger] out@[i]@, sym) < rank(cur@, sym),
                forall|i: int, j: int| 0 <= i < j < out@.len() ==> rank(#[trigger] out@[i]@, sym) < rank(#[trigger] out@[j]@, sym),
                forall|c: Seq<u8>|
                    #[trigger] self.consistent(c, log) && rank(c, sym) < rank(cur@, sym) ==> exists|i: int|
                        0 <= i < out@.len() && #[trigger] out@[i]@ == c,
            decreases rank(top, sym) - rank(cur@, sym),
        {
            let distinct_ok = self.repeats || all_distinct(cur.as_slice());
            if distinct_ok && self.fits_log(hist, &cur) {
                let ghost o0 = out@;
                out.push(copy_bytes(&cur));
                proof {
                    assert(self.consistent(cur@, log));
                    assert forall|c: Seq<u8>|
                        #[trigger] self.consistent(c, log) && rank(c, sym) < rank(cur@, sym) + 1 implies exists|i: int|
                            0 <= i < out@.len() && #[trigger] out@[i]@ == c by {
                        if rank(c, sym) < rank(cur@, sym) {
                            let i = choose|i: int| 0 <= i < o0.len() && #[trigger] o0[i]@ == c;
                            assert(out@[i] == o0[i]);
                        } else {
                            lemma_rank_injective(c, cur@, sym, 0);
                            assert(c =~= cur@.subrange(0, cur@.len() as int));
                            assert(cur@.subrange(0, cur@.len() as int) =~= cur@);
                            assert(out@[o0.len() as int]@ == cur@);
                        }
                    }
                }
            } else {
                proof {
                    assert forall|c: Seq<u8>|
                        #[trigger] self.consistent(c, log) && rank(c, sym) < rank(cur@, sym) + 1 implies exists|i: int|
                            0 <= i < out@.len() && #[trigger] out@[i]@ == c by {
                        if rank(c, sym) == rank(cur@, sym) {
                            lemma_rank_injective(c, cur@, sym, 0);
                            assert(c =~= cur@.subrange(0, cur@.len() as int));
                            assert(cur@.subrange(0, cur@.len() as int) =~= cur@);
                        }
                    }
                }
            }
            // odometer increment over base-`sym` digits
            let ghost old_cur = cur@;
            let ghost mut w: int = 1;
            let mut i: usize = 0;
            loop
                invariant_except_break
                    forall|j: int| 0 <= j < i ==> #[trigger] cur@[j] == 0 && old_cur[j] as int == sym - 1,
                    forall|j: int| i <= j < self.len ==> #[trigger] cur@[j] == old_cur[j],
                    rank_from(old_cur, sym, 0) + 1 == w * (rank_from(old_cur, sym, i as int) + 1),
                invariant
                    self.wf(),
                    sym == self.sym,
                    cur@.len() == self.len,
                    old_cur.len() == self.len,
                    digits_below(old_cur, sym),
                    top.len() == self.len,
                    forall|i: int| 0 <= i < top.len() ==> #[trigger] top[i] as int == sym - 1,
                    i <= self.len,
                    w >= 1,
                    w == pow_int(sym, i as int),
                    log == self.guesses@[seat as int]@,
                    forall|i: int| 0 <= i < out@.len() ==> self.consistent(#[trigger] out@[i]@, log),
                    forall|i: int, j: int| 0 <= i < j < out@.len() ==> rank(#[trigger] out@[i]@, sym) < rank(#[trigger] out@[j]@, sym),
                    forall|i: int| 0 <= i < out@.len() ==> rank(#[trigger] out@[i]@, sym) < rank(old_cur, sym) + 1,
                    forall|c: Seq<u8>|
                        #[trigger] self.consistent(c, log) && rank(c, sym) < rank(old_cur, sym) + 1 ==> exists|i: int|
                            0 <= i < out@.len() && #[trigger] out@[i]@ == c,
                ensures
                    i < self.len,
                    digits_below(cur@, sym),
                    cur@.len() == self.len,
                    rank(cur@, sym) == rank(old_cur, sym) + 1,
                    rank(cur@, sym) <= rank(top, sym),
                decreases self.len - i,
            {
                if i == self.len {
                    proof {
                        assert forall|j: int| 0 <= j < old_cur.len() implies old_cur[j] == top[j] by {
                            assert(cur@[j] == 0);
                        }
                        assert(old_cur =~= top);
                        assert forall|c: Seq<u8>| #[trigger] self.consistent(c, log) implies exists|i: int|
                            0 <= i < out@.len() && #[trigger] out@[i]@ == c by {
                            lemma_rank_le_max(c, top, sym, 0);
                        }
                    }
                    return out;
                }
                let d = cur[i] + 1;
                if (d as usize) < self.sym {
                    cur.set(i, d);
                    proof {
                        lemma_rank_from_ext(cur@, old_cur, sym, i + 1);
                        lemma_rank_zero_prefix(cur@, sym, i as int);
                        assert(rank_from(cur@, sym, i as int) == rank_from(old_cur, sym, i as int) + 1);
                        assert(rank_from(cur@, sym, 0) == w * rank_from(cur@, sym, i as int));
                        assert forall|j: int| 0 <= j < cur@.len() implies (#[trigger] cur@[j] as int) < sym by {
                            if j < i {
                            } else if j > i {
                                assert(cur@[j] == old_cur[j]);
                            }
                        }
                        lemma_rank_le_max(cur@, top, sym, 0);
                    }
                    break;
                }
                cur.set(i, 0);
                proof {
                    assert(old_cur[i as int] as int == sym - 1);
                    let r1 = rank_from(old_cur, sym, i + 1);
                    assert(rank_from(old_cur, sym, i as int) + 1 == sym * (r1 + 1)) by (nonlinear_arith)
                        requires
                            rank_from(old_cur, sym, i as int) == (sym - 1) + sym * r1,
                    ;
                    assert(w * (sym * (r1 + 1)) == (w * sym) * (r1 + 1)) by (nonlinear_arith);
                    assert(w * sym >= 1) by (nonlinear_arith)
                        requires
                            w >= 1,
                            sym >= 1,
                    ;
                    assert(pow_int(sym, i + 1) == pow_int(sym, i as int) * sym);
                    w = w * sym;
                }
                i += 1;
            }
        }
    }
}

proof fn lemma_rank_zero(c: Seq<u8>, sym: int, k: int)
    requires
        forall|i: int| 0 <= i < c.len() ==> #[trigger] c[i] == 0,
    ensures
        rank_from(c, sym, k) == 0,
    decreases c.len() - k,
{
    if 0 <= k < c.len() {
        lemma_rank_zero(c, sym, k + 1);
    }
}

/// With zero digits before `k`, the rank is `sym^k` times the rank from `k` (the factor
/// carried as `w` by the caller).
proof fn lemma_rank_zero_prefix(c: Seq<u8>, sym: int, k: int)
    requires
        0 <= k <= c.len(),
        forall|j: int| 0 <= j < k ==> #[trigger] c[j] == 0,
    ensures
        rank_from(c, sym, 0) == pow_int(sym, k) * rank_from(c, sym, k),
    decreases k,
{
    if k > 0 {
        lemma_rank_zero_prefix(c, sym, k - 1);
        assert(rank_from(c, sym, k - 1) == sym * rank_from(c, sym, k));
        assert(pow_int(sym, k - 1) * (sym * rank_from(c, sym, k)) == pow_int(sym, k) * rank_from(c, sym, k)) by (nonlinear_arith)
            requires
                pow_int(sym, k) == pow_int(sym, k - 1) * sym,
        ;
    }
}

pub open spec fn pow_int(b: int, e: int) -> int
    decreases e,
{
    if e <= 0 {
        1
    } else {
        pow_int(b, e - 1) * b
    }
}

fn copy_bytes(v: &Vec<u8>) -> (res: Vec<u8>)
    ensures
        res@ == v@,
{
    let mut res: Vec<u8> = Vec::new();
    let mut i: usize = 0;
    while i < v.len()
        invariant
            i <= v@.len(),
            res@ == v@.take(i as int),
        decreases v@.len() - i,
    {
        res.push(v[i]);
        i += 1;
        assert(res@ =~= v@.take(i as int));
    }
    assert(v@.take(v@.len() as int) =~= v@);
    res
}

/// Codes of `ag` (among the first `k`) against which guess `g` scores `(b, c)`.
pub open spec fn fb_count(g: Seq<u8>, ag: Seq<Seq<u8>>, b: int, c: int, k: int) -> int
    decreases k,
{
    if k <= 0 {
        0
    } else {
        fb_count(g, ag, b, c, k - 1) + if bulls(g, ag[k - 1]) == b && matches(g, ag[k - 1]) - bulls(g, ag[k - 1]) == c {
            1int
        } else {
            0int
        }
    }
}

/// `w` is the largest feedback bucket of guess `g` over the codes `ag`: the worst-case
/// number of codes left after learning the feedback.
pub open spec fn is_worst(w: int, g: Seq<u8>, ag: Seq<Seq<u8>>) -> bool {
    &&& forall|b: int, c: int| 0 <= b < 6 && 0 <= c < 6 ==> #[trigger] fb_count(g, ag, b, c, ag.len() as int) <= w
    &&& exists|b: int, c: int| 0 <= b < 6 && 0 <= c < 6 && #[trigger] fb_count(g, ag, b, c, ag.len() as int) == w
}

/// The codes of `cs` at the positions `idx`.
pub open spec fn pick(cs: Seq<Vec<u8>>, idx: Seq<usize>) -> Seq<Seq<u8>> {
    Seq::new(idx.len(), |j: int| cs[idx[j] as int]@)
}

proof fn lemma_fb_count_bound(g: Seq<u8>, ag: Seq<Seq<u8>>, b: int, c: int, k: int)
    ensures
        0 <= fb_count(g, ag, b, c, k) <= if k < 0 { 0 } else { k },
    decreases k,
{
    if k > 0 {
        lemma_fb_count_bound(g, ag, b, c, k - 1);
    }
}

/// The largest feedback bucket of `g` against the codes `cs[against[..]]`.
fn worst_bucket(g: &Vec<u8>, cs: &Vec<Vec<u8>>, against: &Vec<usize>) -> (w: usize)
    requires
        g@.len() <= 5,
        digits_below(g@, 10),
        forall|j: int| 0 <= j < against@.len() ==> (#[trigger] against@[j] as int) < cs@.len(),
        forall|i: int| 0 <= i < cs@.len() ==> (#[trigger] cs@[i]@.len()) <= 5,
    ensures
        is_worst(w as int, g@, pick(cs@, against@)),
{
    let ghost ag = pick(cs@, against@);
    let mut counts: [usize; 36] = [0; 36];
    let mut j: usize = 0;
    while j < against.len()
        invariant
            ag == pick(cs@, against@),
            g@.len() <= 5,
            digits_below(g@, 10),
            forall|j: int| 0 <= j < against@.len() ==> (#[trigger] against@[j] as int) < cs@.len(),
            forall|i: int| 0 <= i < cs@.len() ==> (#[trigger] cs@[i]@.len()) <= 5,
            j <= against@.len(),
            forall|b: int, c: int| 0 <= b < 6 && 0 <= c < 6 ==> #[trigger] counts@[b * 6 + c] == fb_count(g@, ag, b, c, j as int),
            forall|o: int| 0 <= o < 36 ==> #[trigger] counts@[o] <= j,
        decreases against@.len() - j,
    {
        let code = &cs[against[j]];
        let (b, c) = feedback(g.as_slice(), code.as_slice());
        let o = (b as usize) * 6 + c as usize;
        counts[o] = counts[o] + 1;
        proof {
            assert(ag[j as int] == cs@[against@[j as int] as int]@);
            assert forall|b2: int, c2: int| 0 <= b2 < 6 && 0 <= c2 < 6 implies #[trigger] counts@[b2 * 6 + c2] == fb_count(g@, ag, b2, c2, j + 1) by {
                if b2 == b && c2 == c {
                } else {
                    assert(b2 * 6 + c2 != o);
                }
            }
        }
        j += 1;
    }
    let mut w: usize = 0;
    let mut o: usize = 0;
    let ghost mut wb: int = 0;
    let ghost mut wc: int = 0;
    proof {
        lemma_fb_count_bound(g@, ag, 0, 0, ag.len() as int);
    }
    while o < 36
        invariant
            ag == pick(cs@, against@),
            j == against@.len(),
            o <= 36,
            forall|b: int, c: int| 0 <= b < 6 && 0 <= c < 6 ==> #[trigger] counts@[b * 6 + c] == fb_count(g@, ag, b, c, ag.len() as int),
            forall|p: int| 0 <= p < o ==> #[trigger] counts@[p] <= w,
            0 <= wb < 6 && 0 <= wc < 6,
            (o == 0 && w == 0 && wb == 0 && wc == 0) || (o > 0 && w == counts@[wb * 6 + wc] && wb * 6 + wc < o),
        decreases 36 - o,
    {
        if o == 0 || counts[o] > w {
            w = counts[o];
            proof {
                wb = o as int / 6;
                wc = o as int % 6;
            }
        }
        o += 1;
    }
    proof {
        assert forall|b: int, c: int| 0 <= b < 6 && 0 <= c < 6 implies #[trigger] fb_count(g@, ag, b, c, ag.len() as int) <= w by {
            assert(counts@[b * 6 + c] <= w);
        }
        assert(fb_count(g@, ag, wb, wc, ag.len() as int) == w);
    }
    w
}

/// Up to `cap` distinct indices below `n`: all of `0..n` in order when `n <= cap`,
/// otherwise a random draw (partial Fisher-Yates).
fn sample_indices(rng: &mut SmallRng, n: usize, cap: usize) -> (idx: Vec<usize>)
    ensures
        sample_of(idx@, n as int, cap as int),
{
    let mut idx: Vec<usize> = Vec::new();
    let mut i: usize = 0;
    while i < n
        invariant
            i <= n,
            idx@.len() == i,
            forall|j: int| 0 <= j < i ==> #[trigger] idx@[j] == j,
        decreases n - i,
    {
        idx.push(i);
        i += 1;
    }
    if n <= cap {
        assert(sample_of(idx@, n as int, cap as int));
        return idx;
    }
    let mut i: usize = 0;
    while i < cap
        invariant
            cap < n,
            i <= cap,
            idx@.len() == n,
            forall|j: int| 0 <= j < n ==> (#[trigger] idx@[j] as int) < n,
            forall|a: int, b: int| 0 <= a < b < n ==> #[trigger] idx@[a] != #[trigger] idx@[b],
        decreases cap - i,
    {
        let j = i + below(rng, idx.len() - i);
        let t = idx[i];
        let u = idx[j];
        idx.set(i, u);
        idx.set(j, t);
        i += 1;
    }
    idx.truncate(cap);
    assert(sample_of(idx@, n as int, cap as int));
    idx
}

/// The guess the deducer settles on.
pub enum Deduction {
    /// The guess is determined without ranking candidates.
    Fixed(Vec<u8>),
    /// The consistent codes, the ranked candidates `(worst bucket, index into the
    /// codes)` best first, and the generator, continuing the seeded stream, for a soft
    /// choice among them.
    Ranked(Vec<Vec<u8>>, Vec<(usize, usize)>, SmallRng),
}

impl BullsCows {
    /// The first guess when nothing is known yet: `0 1 2 ...`, or the digits cycling
    /// below `sym` when repeats are allowed.
    pub open spec fn canonical(&self) -> Seq<u8> {
        Seq::new(self.len as nat, |i: int| (if self.repeats { i % self.sym as int } else { i }) as u8)
    }

    pub fn canonical_first(&self) -> (v: Vec<u8>)
        requires
            self.wf(),
        ensures
            v@ == self.canonical(),
            v@.len() == self.len,
            forall|i: int| 0 <= i < self.len ==> #[trigger] v@[i] as int == if self.repeats { i % self.sym as int } else { i },
            self.valid_code(v@),
    {
        let mut v: Vec<u8> = Vec::new();
        let mut i: usize = 0;
        while i < self.len
            invariant
                self.wf(),
                i <= self.len,
                v@.len() == i,
                forall|j: int| 0 <= j < i ==> #[trigger] v@[j] as int == if self.repeats { j % self.sym as int } else { j },
            decreases self.len - i,
        {
            if self.repeats {
                v.push((i % self.sym) as u8);
            } else {
                v.push(i as u8);
            }
            i += 1;
        }
        assert(v@ =~= self.canonical());
        v
    }

    /// A random legal code.
    pub fn random_code(&self, rng: &mut SmallRng) -> (c: Vec<u8>)
        requires
            self.wf(),
        ensures
            self.valid_code(c@),
    {
        if self.repeats {
            let mut c: Vec<u8> = Vec::new();
            let mut i: usize = 0;
            while i < self.len
                invariant
                    self.wf(),
                    self.repeats,
                    i <= self.len,
                    c@.len() == i,
                    digits_below(c@, self.sym as int),
                decreases self.len - i,
            {
                c.push(below(rng, self.sym) as u8);
                i += 1;
            }
            c
        } else {
            let mut pool: Vec<u8> = Vec::new();
            let mut i: usize = 0;
            while i < self.sym
                invariant
                    self.wf(),
                    i <= self.sym,
                    pool@.len() == i,
                    forall|j: int| 0 <= j < i ==> #[trigger] pool@[j] as int == j,
                decreases self.sym - i,
            {
                pool.push(i as u8);
                i += 1;
            }
            let mut i: usize = 0;
            while i < self.len
                invariant
                    self.wf(),
                    i <= self.len,
                    pool@.len() == self.sym,
                    digits_below(pool@, self.sym as int),
                    distinct(pool@),
                decreases self.len - i,
            {
                let j = i + below(rng, pool.len() - i);
                let t = pool[i];
                let u = pool[j];
                pool.set(i, u);
                pool.set(j, t);
                i += 1;
            }
            pool.truncate(self.len);
            pool
        }
    }
}


/// `(w1, p1)` comes strictly before `(w2, p2)`: smaller bucket, ties by position.
pub open spec fn key_lt(w1: int, p1: int, w2: int, p2: int) -> bool {
    w1 < w2 || (w1 == w2 && p1 < p2)
}

/// `idx` lists `min(n, cap)` distinct indices below `n`: all of `0..n` in order when
/// `n <= cap`.
pub open spec fn sample_of(idx: Seq<usize>, n: int, cap: int) -> bool {
    &&& idx.len() == if n <= cap { n } else { cap }
    &&& forall|j: int| 0 <= j < idx.len() ==> (#[trigger] idx[j] as int) < n
    &&& forall|a: int, b: int| 0 <= a < b < idx.len() ==> #[trigger] idx[a] != #[trigger] idx[b]
    &&& n <= cap ==> forall|j: int| 0 <= j < idx.len() ==> #[trigger] idx[j] == j
}

/// `scored[j]` pairs the candidate `cand[j]` with its largest feedback bucket over the
/// codes of `cs` at the positions `against`.
pub open spec fn scores(cs: Seq<Vec<u8>>, cand: Seq<usize>, against: Seq<usize>, scored: Seq<(usize, usize)>) -> bool {
    &&& scored.len() == cand.len()
    &&& forall|j: int|
        0 <= j < scored.len() ==> (#[trigger] scored[j]).1 == cand[j] && is_worst(
            scored[j].0 as int,
            cs[cand[j] as int]@,
            pick(cs, against),
        )
}

/// `top` is `scored` at the positions `pos`: its `top.len()` best entries by
/// `(bucket, position)`, best first.
pub open spec fn best_at(scored: Seq<(usize, usize)>, top: Seq<(usize, usize)>, pos: Seq<int>) -> bool {
    let k = top.len() as int;
    &&& pos.len() == k
    &&& forall|t: int| 0 <= t < k ==> 0 <= #[trigger] pos[t] < scored.len() && top[t] == scored[pos[t]]
    &&& forall|t: int, u: int|
        0 <= t < u < k ==> key_lt(scored[#[trigger] pos[t]].0 as int, pos[t], scored[#[trigger] pos[u]].0 as int, pos[u])
    &&& k > 0 ==> forall|p: int|
        0 <= p < scored.len() && !pos.contains(p) ==> key_lt(scored[pos[k - 1]].0 as int, pos[k - 1], #[trigger] scored[p].0 as int, p)
}

/// One run of the minimax ranking: candidates `cand` drawn from `cs` up to `cap`,
/// scored against the codes at `against` (up to `SCORE_CAP`), `top` kept.
pub open spec fn ranking_run(
    cs: Seq<Vec<u8>>,
    cap: int,
    cand: Seq<usize>,
    against: Seq<usize>,
    scored: Seq<(usize, usize)>,
    top: Seq<(usize, usize)>,
    pos: Seq<int>,
) -> bool {
    &&& sample_of(cand, cs.len() as int, cap)
    &&& sample_of(against, cs.len() as int, SCORE_CAP as int)
    &&& scores(cs, cand, against, scored)
    &&& best_at(scored, top, pos)
}

/// `top` is the outcome of the minimax ranking of `cs`, keeping `top_k` entries (at
/// least one, at most the number of candidates).
pub open spec fn ranked(cs: Seq<Vec<u8>>, cap: int, top_k: int, top: Seq<(usize, usize)>) -> bool {
    let n = cs.len() as int;
    let m = if n <= cap { n } else { cap };
    &&& top.len() == if top_k < 1 { 1 } else if top_k > m { m } else { top_k }
    &&& forall|t: int| 0 <= t < top.len() ==> (#[trigger] top[t]).1 < n
    &&& exists|cand: Seq<usize>, against: Seq<usize>, scored: Seq<(usize, usize)>, pos: Seq<int>|
        #[trigger] ranking_run(cs, cap, cand, against, scored, top, pos)
}

/// The candidate budget: `playouts`, at least one.
pub open spec fn cand_cap(playouts: u64) -> int {
    if (playouts as usize) < 1 { 1 } else { (playouts as usize) as int }
}

/// The `k` best entries of `scored` by `(bucket, position)`, best first: the first `k`
/// entries of a stable sort by bucket.
fn select_best(scored: &Vec<(usize, usize)>, k: usize) -> (r: (Vec<(usize, usize)>, Ghost<Seq<int>>))
    requires
        1 <= k <= scored@.len(),
    ensures
        r.0@.len() == k,
        best_at(scored@, r.0@, r.1@),
{
    let n = scored.len();
    let mut taken: Vec<bool> = Vec::new();
    let mut i: usize = 0;
    while i < n
        invariant
            n == scored@.len(),
            i <= n,
            taken@.len() == i,
            forall|j: int| 0 <= j < i ==> !#[trigger] taken@[j],
        decreases n - i,
    {
        taken.push(false);
        i += 1;
    }
    let mut res: Vec<(usize, usize)> = Vec::new();
    let ghost mut pos: Seq<int> = Seq::empty();
    let mut t: usize = 0;
    while t < k
        invariant
            n == scored@.len(),
            1 <= k <= n,
            t <= k,
            taken@.len() == n,
            res@.len() == t,
            pos.len() == t,
            forall|j: int| 0 <= j < n ==> (#[trigger] taken@[j] <==> pos.contains(j)),
            forall|a: int| 0 <= a < t ==> 0 <= #[trigger] pos[a] < n && res@[a] == scored@[pos[a]],
            forall|a: int, b: int| 0 <= a < b < t ==> key_lt(scored@[#[trigger] pos[a]].0 as int, pos[a], scored@[#[trigger] pos[b]].0 as int, pos[b]),
            t > 0 ==> forall|p: int|
                0 <= p < n && !pos.contains(p) ==> key_lt(scored@[pos[t - 1]].0 as int, pos[t - 1], #[trigger] scored@[p].0 as int, p),
        decreases k - t,
    {
        let mut best: usize = n;
        let mut j: usize = 0;
        while j < n
            invariant
                n == scored@.len(),
                j <= n,
                taken@.len() == n,
                best == n || (best < j && !taken@[best as int]),
                best < n ==> forall|p: int| 0 <= p < j && !taken@[p] && p != best ==> key_lt(scored@[best as int].0 as int, best as int, #[trigger] scored@[p].0 as int, p),
                best == n ==> forall|p: int| 0 <= p < j ==> #[trigger] taken@[p],
            decreases n - j,
        {
            if !taken[j] && (best == n || scored[j].0 < scored[best].0) {
                best = j;
            }
            j += 1;
        }
        proof {
            if best == n {
                // t < k <= n positions remain untaken
                assert forall|j: int| 0 <= j < n implies pos.contains(j) by {
                    assert(taken@[j]);
                }
                lemma_pos_covers(pos, n as int);
                assert(false);
            }
        }
        taken.set(best, true);
        res.push(scored[best]);
        proof {
            let p0 = pos;
            pos = pos.push(best as int);
            assert forall|j: int| 0 <= j < n implies (#[trigger] taken@[j] <==> pos.contains(j)) by {
                if j == best {
                    assert(pos[t as int] == j);
                } else if p0.contains(j) {
                    let a = choose|a: int| 0 <= a < p0.len() && p0[a] == j;
                    assert(pos[a] == j);
                } else if pos.contains(j) {
                    let a = choose|a: int| 0 <= a < pos.len() && pos[a] == j;
                    assert(a != t);
                    assert(p0[a] == j);
                }
            }
            assert(!p0.contains(best as int));
            assert forall|a: int, b: int| 0 <= a < b < t + 1 implies key_lt(scored@[#[trigger] pos[a]].0 as int, pos[a], scored@[#[trigger] pos[b]].0 as int, pos[b]) by {
                if b == t {
                    assert(pos[b] == best);
                    assert(p0[a] == pos[a]);
                    if a < t - 1 {
                        assert(key_lt(scored@[p0[a]].0 as int, p0[a], scored@[p0[t - 1]].0 as int, p0[t - 1]));
                    }
                    assert(key_lt(scored@[p0[t - 1]].0 as int, p0[t - 1], scored@[best as int].0 as int, best as int));
                } else {
                    assert(p0[a] == pos[a] && p0[b] == pos[b]);
                }
            }
            assert(pos[t as int] == best);
            assert forall|p: int| 0 <= p < n && !pos.contains(p) implies key_lt(scored@[pos[t as int]].0 as int, pos[t as int], #[trigger] scored@[p].0 as int, p) by {
                if p == best {
                    assert(pos[t as int] == p);
                }
                assert(p != best);
                assert(!taken@[p]);
            }
        }
        t += 1;
    }
    assert(best_at(scored@, res@, pos));
    (res, Ghost(pos))
}

/// `pos` holding every index below `n` has at least `n` entries.
proof fn lemma_pos_covers(pos: Seq<int>, n: int)
    requires
        forall|j: int| 0 <= j < n ==> pos.contains(j),
        n >= 0,
    ensures
        pos.len() >= n,
    decreases n,
{
    if n > 0 {
        assert(pos.contains(n - 1));
        let a = choose|a: int| 0 <= a < pos.len() && pos[a] == n - 1;
        let q = pos.remove(a);
        assert forall|j: int| 0 <= j < n - 1 implies q.contains(j) by {
            assert(pos.contains(j));
            let b = choose|b: int| 0 <= b < pos.len() && pos[b] == j;
            assert(b != a);
            if b < a {
                assert(q[b] == j);
            } else {
                assert(q[b - 1] == j);
            }
        }
        lemma_pos_covers(q, n - 1);
    }
}

impl BullsCows {
    /// `cs` lists the codes consistent with `log`, each once, in increasing odometer
    /// rank, and misses none.
    pub open spec fn lists_consistent(&self, cs: Seq<Vec<u8>>, log: Seq<Entry>) -> bool {
        &&& forall|i: int| 0 <= i < cs.len() ==> self.consistent(#[trigger] cs[i]@, log)
        &&& forall|i: int, j: int|
            0 <= i < j < cs.len() ==> rank(#[trigger] cs[i]@, self.sym as int) < rank(#[trigger] cs[j]@, self.sym as int)
        &&& forall|c: Seq<u8>| #[trigger] self.consistent(c, log) ==> exists|i: int| 0 <= i < cs.len() && #[trigger] cs[i]@ == c
    }

    /// What the deducer settles on for `seat` without ranking: the canonical opener when
    /// the log is empty, the only consistent code when there is one, any legal code
    /// when none is left.
    pub open spec fn fixed_guess(&self, seat: int, g: Seq<u8>) -> bool {
        let log = self.guesses@[seat]@;
        ||| log.len() == 0 && g == self.canonical()
        ||| log.len() > 0 && self.consistent(g, log) && (forall|x: Seq<u8>| #[trigger] self.consistent(x, log) ==> x == g)
        ||| log.len() > 0 && self.valid_code(g) && (forall|x: Seq<u8>| !#[trigger] self.consistent(x, log))
    }

    /// The deducer's next guess for `seat`, up to the soft choice among the best
    /// candidates. `playouts` caps how many consistent codes are scored as guesses
    /// (the difficulty budget), `top_k` how many of the best are kept; `seed` seeds the
    /// draws. Reads only `seat`'s own guess log.
    pub fn deduce(&self, seat: usize, playouts: u64, top_k: usize, seed: u32) -> (d: Deduction)
        requires
            self.wf(),
            seat <= 1,
        ensures
            match d {
                Deduction::Fixed(c) => self.fixed_guess(seat as int, c@),
                Deduction::Ranked(cs, top, _) => {
                    &&& self.guesses@[seat as int]@.len() > 0
                    &&& self.lists_consistent(cs@, self.guesses@[seat as int]@)
                    &&& cs@.len() >= 2
                    &&& ranked(cs@, cand_cap(playouts), top_k as int, top@)
                },
            },
    {
        let ghost log = self.guesses@[seat as int]@;
        let mut rng = seeded((seed as u64) ^ 0xB0115C0u64);
        if self.guesses[seat].len() == 0 {
            return Deduction::Fixed(self.canonical_first());
        }
        let cs = self.consistent_codes(seat);
        assert(self.lists_consistent(cs@, log));
        if cs.len() == 0 {
            let c = self.random_code(&mut rng);
            assert forall|x: Seq<u8>| !#[trigger] self.consistent(x, log) by {
                if self.consistent(x, log) {
                    let i = choose|i: int| 0 <= i < cs@.len() && #[trigger] cs@[i]@ == x;
                }
            }
            return Deduction::Fixed(c);
        }
        if cs.len() == 1 {
            let c = copy_bytes(&cs[0]);
            assert(self.consistent(cs@[0]@, log));
            assert forall|x: Seq<u8>| #[trigger] self.consistent(x, log) implies x == c@ by {
                let i = choose|i: int| 0 <= i < cs@.len() && #[trigger] cs@[i]@ == x;
                assert(i == 0);
            }
            return Deduction::Fixed(c);
        }
        let n = cs.len();
        let pl = playouts as usize;
        let cap: usize = if pl < 1 {
            1
        } else {
            pl
        };
        assert(cap as int == cand_cap(playouts));
        proof {
            assert forall|i: int| 0 <= i < n implies (#[trigger] cs@[i]@).len() <= 5 && digits_below(cs@[i]@, 10) by {
                assert(self.consistent(cs@[i]@, log));
            }
        }
        let cand = sample_indices(&mut rng, n, cap);
        let against = sample_indices(&mut rng, n, SCORE_CAP);
        let mut scored: Vec<(usize, usize)> = Vec::new();
        let mut j: usize = 0;
        while j < cand.len()
            invariant
                n == cs@.len(),
                j <= cand@.len(),
                scored@.len() == j,
                forall|i: int| 0 <= i < n ==> (#[trigger] cs@[i]@).len() <= 5 && digits_below(cs@[i]@, 10),
                sample_of(cand@, n as int, cap as int),
                sample_of(against@, n as int, SCORE_CAP as int),
                forall|t: int|
                    0 <= t < j ==> (#[trigger] scored@[t]).1 == cand@[t] && is_worst(
                        scored@[t].0 as int,
                        cs@[cand@[t] as int]@,
                        pick(cs@, against@),
                    ),
            decreases cand@.len() - j,
        {
            let ci = cand[j];
            let w = worst_bucket(&cs[ci], &cs, &against);
            scored.push((w, ci));
            j += 1;
        }
        let m = scored.len();
        let k = if top_k < 1 {
            1
        } else if top_k > m {
            m
        } else {
            top_k
        };
        let (top, Ghost(pos)) = select_best(&scored, k);
        assert(ranking_run(cs@, cap as int, cand@, against@, scored@, top@, pos));
        assert forall|t: int| 0 <= t < top@.len() implies (#[trigger] top@[t]).1 < n by {
            assert(top@[t] == scored@[pos[t]]);
            assert(scored@[pos[t]].1 == cand@[pos[t]]);
        }
        Deduction::Ranked(cs, top, rng)
    }
}

/// Text of a code is read back as that code: the move encoding round-trips.
pub proof fn lemma_code_text_round_trip(len: int, sym: int, repeats: bool, c: Seq<u8>)
    requires
        c.len() == len,
        sym <= 10,
        digits_below(c, sym),
        repeats || distinct(c),
    ensures
        code_of_text(len, sym, repeats, code_text(c)) == Some(c),
{
    let t = code_text(c);
    let v = Seq::new(t.len(), |i: int| (t[i] as int - '0' as int) as u8);
    assert forall|i: int| 0 <= i < t.len() implies '0' <= #[trigger] t[i] <= '9' && (t[i] as int - '0' as int) < sym by {
        assert(c[i] < sym);
    }
    assert(v =~= c);
}

/// Two codes whose move texts under one prefix agree are the same code.
proof fn lemma_move_text_injective(p: Seq<char>, a: Seq<u8>, b: Seq<u8>)
    requires
        digits_below(a, 10),
        digits_below(b, 10),
        p + code_text(a) == p + code_text(b),
    ensures
        a == b,
{
    let x = p + code_text(a);
    let y = p + code_text(b);
    assert(code_text(a) =~= x.subrange(p.len() as int, x.len() as int));
    assert(code_text(b) =~= y.subrange(p.len() as int, y.len() as int));
    assert forall|i: int| 0 <= i < a.len() implies a[i] == b[i] by {
        assert(code_text(a)[i] == code_text(b)[i]);
    }
    assert(a =~= b);
}

impl BullsCows {
    /// The deducer's choice at zero temperature for `seat`: a fixed guess, or the best
    /// ranked candidate.
    pub open spec fn greedy_ok(&self, seat: int, playouts: u64, g: Seq<u8>) -> bool {
        let log = self.guesses@[seat]@;
        ||| self.fixed_guess(seat, g)
        ||| exists|cs: Seq<Vec<u8>>, top: Seq<(usize, usize)>|
            #[trigger] self.greedy_pick(log, playouts, cs, top) && g == cs[top[0].1 as int]@
    }

    pub open spec fn greedy_pick(&self, log: Seq<Entry>, playouts: u64, cs: Seq<Vec<u8>>, top: Seq<(usize, usize)>) -> bool {
        &&& log.len() > 0
        &&& self.lists_consistent(cs, log)
        &&& cs.len() >= 2
        &&& ranked(cs, cand_cap(playouts), 1, top)
    }

    /// The deducer's guess for `seat` at zero temperature: the information-optimal
    /// candidate among those scored.
    pub fn ai_guess_greedy(&self, seat: usize, playouts: u64, seed: u32) -> (g: Vec<u8>)
        requires
            self.wf(),
            seat <= 1,
        ensures
            self.greedy_ok(seat as int, playouts, g@),
            self.valid_code(g@),
    {
        match self.deduce(seat, playouts, 1, seed) {
            Deduction::Fixed(c) => {
                proof {
                    if self.guesses@[seat as int]@.len() == 0 {
                        assert(self.valid_code(self.canonical())) by {
                            assert(self.canonical() =~= c@);
                        }
                    }
                }
                c
            },
            Deduction::Ranked(cs, top, _) => {
                let ghost log = self.guesses@[seat as int]@;
                let i = top[0].1;
                let g = copy_bytes(&cs[i]);
                proof {
                    assert(self.greedy_pick(log, playouts, cs@, top@));
                    assert(self.consistent(cs@[i as int]@, log));
                }
                g
            },
        }
    }
}

impl BullsCows {
    /// The move prefix of the current phase: `set:` until both codes are set, `g:` after.
    pub open spec fn move_prefix(&self) -> Seq<char> {
        if self.both_set_spec() {
            guess_prefix()
        } else {
            set_prefix()
        }
    }

    /// The phase allows the current seat to move: guessing, or setting its own code.
    pub open spec fn seat_may_move(&self) -> bool {
        self.both_set_spec() || self.codes@[self.current as int] is None
    }

    /// The move text for `code` in the current phase.
    pub fn move_text(&self, code: &Vec<u8>) -> (s: String)
        requires
            digits_below(code@, 10),
        ensures
            s@ == self.move_prefix() + code_text(code@),
    {
        let mut s = String::new();
        if self.both_set() {
            push_all(&mut s, &['g', ':']);
        } else {
            push_all(&mut s, &['s', 'e', 't', ':']);
        }
        push_code(&mut s, code.as_slice());
        s
    }

    /// A legal code's move text is accepted whenever the current seat may move.
    proof fn lemma_move_accepted(&self, c: Seq<u8>)
        requires
            self.wf(),
            self.valid_code(c),
            !self.terminal_spec(),
            self.seat_may_move(),
        ensures
            self.accepts(self.move_prefix() + code_text(c)),
    {
        let p = self.move_prefix();
        let t = p + code_text(c);
        lemma_code_text_round_trip(self.len as int, self.sym as int, self.repeats, c);
        assert(rest(t, p.len() as int) =~= code_text(c));
        assert(t.take(p.len() as int) =~= p);
        if self.both_set_spec() {
            assert(t[0] == 'g');
            assert(!starts_with(t, set_prefix())) by {
                if starts_with(t, set_prefix()) {
                    assert(t.take(4)[0] == 's');
                }
            }
        }
    }

    /// The current seat's move at zero temperature: in setup a random legal code, when
    /// guessing the deducer's best guess; `None` once the game is over.
    pub fn pick_move_greedy(&self, playouts: u64, seed: u32) -> (m: Option<String>)
        requires
            self.wf(),
        ensures
            m is None <==> self.terminal_spec(),
            m matches Some(s) ==> (self.seat_may_move() ==> self.accepts(s@)),
            m matches Some(s) ==> (!self.both_set_spec() ==> exists|c: Seq<u8>|
                self.valid_code(c) && s@ == set_prefix() + code_text(c)),
            m matches Some(s) ==> (self.both_set_spec() ==> exists|g: Seq<u8>|
                self.greedy_ok(self.current as int, playouts, g) && s@ == guess_prefix() + code_text(g)),
    {
        if self.is_terminal() {
            return None;
        }
        let code = if !self.both_set() {
            let mut rng = seeded((seed as u64) ^ 0x5E7C0DEu64);
            self.random_code(&mut rng)
        } else {
            self.ai_guess_greedy(self.current as usize, playouts, seed)
        };
        let s = self.move_text(&code);
        proof {
            if self.seat_may_move() {
                self.lemma_move_accepted(code@);
            }
        }
        Some(s)
    }

    /// Whether `c` is among the first entries of `codes`.
    fn has_code(codes: &Vec<Vec<u8>>, c: &Vec<u8>) -> (b: bool)
        ensures
            b == exists|i: int| 0 <= i < codes@.len() && #[trigger] codes@[i]@ == c@,
    {
        let mut i: usize = 0;
        while i < codes.len()
            invariant
                i <= codes@.len(),
                forall|j: int| 0 <= j < i ==> #[trigger] codes@[j]@ != c@,
            decreases codes@.len() - i,
        {
            if same_code(&codes[i], c) {
                return true;
            }
            i += 1;
        }
        false
    }

    /// A small sample of legal moves: the canonical code first, then distinct random
    /// ones, up to `LEGAL_SAMPLE`; empty once the game is over. The number of random
    /// draws is bounded so the loop provably ends; with at least 120 legal codes the
    /// bound is never approached.
    pub fn legal_sample(&self) -> (out: Vec<String>)
        requires
            self.wf(),
        ensures
            self.terminal_spec() ==> out@.len() == 0,
            !self.terminal_spec() ==> 1 <= out@.len() <= LEGAL_SAMPLE,
            !self.terminal_spec() ==> out@[0]@ == self.move_prefix() + code_text(self.canonical()),
            forall|i: int| 0 <= i < out@.len() ==> exists|c: Seq<u8>|
                self.valid_code(c) && #[trigger] out@[i]@ == self.move_prefix() + code_text(c),
            forall|i: int, j: int| 0 <= i < j < out@.len() ==> #[trigger] out@[i]@ != #[trigger] out@[j]@,
            forall|i: int| 0 <= i < out@.len() && self.seat_may_move() ==> self.accepts(#[trigger] out@[i]@),
    {
        let mut out: Vec<String> = Vec::new();
        if self.is_terminal() {
            return out;
        }
        let ghost pre = self.move_prefix();
        let seed: u64 = 0x1E6A1u64 ^ (self.guesses[0].len() as u64) ^ ((self.guesses[1].len() as u64) << 8u64);
        let mut rng = seeded(seed);
        let first = self.canonical_first();
        out.push(self.move_text(&first));
        let mut codes: Vec<Vec<u8>> = Vec::new();
        codes.push(first);
        let mut tries: u64 = 0;
        while out.len() < LEGAL_SAMPLE && tries < u64::MAX
            invariant
                self.wf(),
                !self.terminal_spec(),
                pre == self.move_prefix(),
                1 <= out@.len() <= LEGAL_SAMPLE,
                codes@.len() == out@.len(),
                codes@[0]@ == self.canonical(),
                forall|i: int| 0 <= i < codes@.len() ==> self.valid_code(#[trigger] codes@[i]@),
                forall|i: int| 0 <= i < out@.len() ==> #[trigger] out@[i]@ == pre + code_text(codes@[i]@),
                forall|i: int, j: int| 0 <= i < j < codes@.len() ==> #[trigger] codes@[i]@ != #[trigger] codes@[j]@,
            decreases u64::MAX - tries,
        {
            tries += 1;
            let c = self.random_code(&mut rng);
            if !Self::has_code(&codes, &c) {
                out.push(self.move_text(&c));
                codes.push(c);
            }
        }
        proof {
            assert forall|i: int, j: int| 0 <= i < j < out@.len() implies #[trigger] out@[i]@ != #[trigger] out@[j]@ by {
                if out@[i]@ == out@[j]@ {
                    lemma_move_text_injective(pre, codes@[i]@, codes@[j]@);
                }
            }
            assert forall|i: int| 0 <= i < out@.len() implies exists|c: Seq<u8>|
                self.valid_code(c) && #[trigger] out@[i]@ == self.move_prefix() + code_text(c) by {
                assert(self.valid_code(codes@[i]@));
            }
            assert forall|i: int| 0 <= i < out@.len() && self.seat_may_move() implies self.accepts(#[trigger] out@[i]@) by {
                self.lemma_move_accepted(codes@[i]@);
            }
        }
        out
    }
}

/// Whether two codes are equal.
fn same_code(a: &Vec<u8>, b: &Vec<u8>) -> (r: bool)
    ensures
        r == (a@ == b@),
{
    if a.len() != b.len() {
        return false;
    }
    let mut i: usize = 0;
    while i < a.len()
        invariant
            a@.len() == b@.len(),
            i <= a@.len(),
            forall|j: int| 0 <= j < i ==> a@[j] == b@[j],
        decreases a@.len() - i,
    {
        if a[i] != b[i] {
            return false;
        }
        i += 1;
    }
    assert(a@ =~= b@);
    true
}


/// The codes a seat's deducer keeps depend on that seat's own guess log alone: two games
/// with the same rules and the same log for `seat` keep the same codes, whatever their
/// secret codes and the other seat's log.
pub proof fn lemma_deduction_reads_own_log(a: BullsCows, b: BullsCows, seat: int, c: Seq<u8>)
    requires
        0 <= seat <= 1,
        a.len == b.len,
        a.sym == b.sym,
        a.repeats == b.repeats,
        a.guesses@[seat]@ == b.guesses@[seat]@,
    ensures
        a.consistent(c, a.guesses@[seat]@) <==> b.consistent(c, b.guesses@[seat]@),
{
}

} // verus!
