//! Connect Four family settings and move vocabulary: clamping a requested
//! configuration, and the text of drops (`"3"`) and Pop Out pops (`"pop3"`),
//! which travel as a column number, pops offset by [`POP_OFFSET`].
use vstd::prelude::*;
use crate::text::{chars_of, parse_uint, parse_uint_range, push_dec, push_str, dec};

verus! {

pub const MAX_DIM: usize = 12;
pub const MAX_PLAYERS: usize = 6;
/// A move value at or above this is a pop of column `value - POP_OFFSET`.
pub const POP_OFFSET: u8 = 128;

/// The board a Connect Four game is played on.
#[derive(Clone, Copy, Debug, PartialEq, Eq, Structural)]
pub struct GridConfig {
    pub cols: usize,
    pub rows: usize,
    pub k: usize,
    pub num_players: usize,
    pub gravity: bool,
    pub center_column_bonus: bool,
    pub wrap_cols: bool,
    pub allow_pop: bool,
}

pub open spec fn clamp(v: int, lo: int, hi: int) -> int {
    if v < lo {
        lo
    } else if v > hi {
        hi
    } else {
        v
    }
}

fn clamp_usize(v: usize, lo: usize, hi: usize) -> (r: usize)
    requires
        lo <= hi,
    ensures
        r == clamp(v as int, lo as int, hi as int),
{
    if v < lo {
        lo
    } else if v > hi {
        hi
    } else {
        v
    }
}

/// Clamp the requested sizes: sides to 3..=12, the line length to
/// 2..=max(cols, rows), players to 2..=6. `variant` 1 is Pop Out, 2 Cylinder;
/// anything else is classic.
pub fn config(cols: usize, rows: usize, k: usize, num_players: usize, variant: u32) -> (c: GridConfig)
    ensures
        c.cols == clamp(cols as int, 3, 12),
        c.rows == clamp(rows as int, 3, 12),
        c.k == clamp(k as int, 2, if c.cols >= c.rows { c.cols as int } else { c.rows as int }),
        c.num_players == clamp(num_players as int, 2, 6),
        c.gravity,
        c.center_column_bonus,
        c.wrap_cols == (variant == 2),
        c.allow_pop == (variant == 1),
{
    let cols = clamp_usize(cols, 3, MAX_DIM);
    let rows = clamp_usize(rows, 3, MAX_DIM);
    let hi = if cols >= rows { cols } else { rows };
    let k = clamp_usize(k, 2, hi);
    let num_players = clamp_usize(num_players, 2, MAX_PLAYERS);
    GridConfig {
        cols,
        rows,
        k,
        num_players,
        gravity: true,
        center_column_bonus: true,
        wrap_cols: variant == 2,
        allow_pop: variant == 1,
    }
}

pub open spec fn pop_prefix() -> Seq<char> {
    seq!['p', 'o', 'p']
}

/// The UI text of a raw move text `s`: a number at or above the offset becomes
/// `pop<col>`; anything else is kept.
pub open spec fn encode_spec(s: Seq<char>) -> Seq<char> {
    match parse_uint(s, 65535) {
        Some(v) if v >= POP_OFFSET => pop_prefix() + dec((v - POP_OFFSET) as nat),
        _ => s,
    }
}

pub fn encode_move(s: String) -> (r: String)
    ensures
        r@ == encode_spec(s@),
{
    let cs = chars_of(s.as_str());
    proof {
        assert(cs@.subrange(0, cs@.len() as int) =~= s@);
    }
    match parse_uint_range(&cs, 0, cs.len(), 65535) {
        Some(v) if v >= 128 => {
            let mut r = String::new();
            push_str(&mut r, "pop");
            proof {
                reveal_strlit("pop");
                assert("pop"@ =~= pop_prefix());
            }
            push_dec(&mut r, v - 128);
            r
        },
        _ => s,
    }
}

/// The move value that the text `s` names on a board `cols` wide: `"<c>"` drops
/// into column `c`, `"pop<c>"` pops it; `c` must be a column.
pub open spec fn parse_move_spec(s: Seq<char>, cols: int) -> Option<int> {
    if s.len() >= 3 && s.subrange(0, 3) == pop_prefix() {
        match parse_uint(s.skip(3), 255) {
            Some(c) if c < cols => Some(c + POP_OFFSET),
            _ => None,
        }
    } else {
        match parse_uint(s, 255) {
            Some(c) if c < cols => Some(c),
            _ => None,
        }
    }
}

pub fn parse_move(mov: &str, cols: usize) -> (r: Option<u8>)
    requires
        cols <= MAX_DIM,
    ensures
        r matches Some(v) ==> parse_move_spec(mov@, cols as int) == Some(v as int),
        r is None ==> parse_move_spec(mov@, cols as int) is None,
{
    let cs = chars_of(mov);
    let n = cs.len();
    if n >= 3 && cs[0] == 'p' && cs[1] == 'o' && cs[2] == 'p' {
        proof {
            assert(cs@.subrange(0, 3) =~= pop_prefix());
            assert(cs@.subrange(3, n as int) =~= mov@.skip(3));
        }
        match parse_uint_range(&cs, 3, n, 255) {
            Some(c) if (c as usize) < cols => Some(c as u8 + POP_OFFSET),
            _ => None,
        }
    } else {
        proof {
            assert(cs@.subrange(0, n as int) =~= mov@);
            if n >= 3 {
                assert(cs@.subrange(0, 3)[0] == cs@[0]);
                assert(cs@.subrange(0, 3)[1] == cs@[1]);
                assert(cs@.subrange(0, 3)[2] == cs@[2]);
            }
        }
        match parse_uint_range(&cs, 0, n, 255) {
            Some(c) if (c as usize) < cols => Some(c as u8),
            _ => None,
        }
    }
}

/// Reading back the text of a drop or a pop of a column gives that move.
pub proof fn lemma_move_text_round_trip(c: nat, cols: int, pop: bool)
    requires
        c < cols <= 12,
    ensures
        parse_move_spec(if pop { pop_prefix() + dec(c) } else { dec(c) }, cols)
            == Some(if pop { c + POP_OFFSET } else { c as int }),
{
    crate::text::lemma_parse_dec(c, 255);
    crate::text::lemma_dec(c);
    let d = dec(c);
    if pop {
        let s = pop_prefix() + d;
        assert(s.subrange(0, 3) =~= pop_prefix());
        assert(s.skip(3) =~= d);
    } else {
        if d.len() >= 3 {
            assert(crate::text::is_digit(d[0]));
            assert(d.subrange(0, 3)[0] == d[0]);
        }
    }
}

} // verus!
