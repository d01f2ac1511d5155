//! Euclid's game: from two numbers, replace the larger by the larger minus a
//! positive multiple of the smaller, staying at or above zero. Making a zero wins.
use vstd::prelude::*;
use crate::outcome::Outcome;
use crate::text::{push_char, push_dec, push_joined, join_nums, u16s, dec, chars_of, parse_uint, parse_uint_range};

verus! {

#[derive(Clone, Copy, Debug)]
pub struct Euclid {
    pub a: u32,
    pub b: u32,
    pub current: u8,
}

impl Euclid {
    pub open spec fn hi(&self) -> int {
        if self.a >= self.b { self.a as int } else { self.b as int }
    }

    pub open spec fn lo(&self) -> int {
        if self.a >= self.b { self.b as int } else { self.a as int }
    }

    /// The values the larger number may drop to, as move numbers (16 bits):
    /// `hi - lo`, `hi - 2 lo`, ... down to `hi mod lo`; none once a zero shows.
    pub open spec fn gen_spec(&self) -> Seq<u16> {
        if self.a == 0 || self.b == 0 {
            seq![]
        } else {
            Seq::new((self.hi() / self.lo()) as nat, |k: int| (self.hi() - (k + 1) * self.lo()) as u16)
        }
    }

    /// A zero showing: the side to move cannot move and has lost.
    pub open spec fn term_spec(&self) -> Option<Outcome> {
        if self.a == 0 || self.b == 0 {
            Some(Outcome::Loss)
        } else {
            None
        }
    }

    pub fn new(a: u32, b: u32) -> (g: Self)
        ensures
            g.a == a,
            g.b == b,
            g.current == 0,
    {
        Euclid { a, b, current: 0 }
    }

    pub fn gen(&self) -> (v: Vec<u16>)
        ensures
            v@ == self.gen_spec(),
    {
        if self.a == 0 || self.b == 0 {
            return Vec::new();
        }
        let hi = if self.a >= self.b { self.a } else { self.b };
        let lo = if self.a >= self.b { self.b } else { self.a };
        let mut v: Vec<u16> = Vec::new();
        let mut h = hi;
        let ghost mut k: int = 0;
        while h >= lo
            invariant
                lo > 0,
                hi == self.hi(),
                lo == self.lo(),
                k >= 0,
                h == hi - k * lo,
                v@ == Seq::new(k as nat, |j: int| (hi - (j + 1) * lo) as u16),
            decreases h,
        {
            h -= lo;
            proof {
                assert(h == hi - (k + 1) * lo) by (nonlinear_arith)
                    requires
                        h == hi - k * lo - lo,
                ;
            }
            v.push(h as u16);
            proof {
                k = k + 1;
                assert(v@ =~= Seq::new(k as nat, |j: int| (hi - (j + 1) * lo) as u16));
            }
        }
        proof {
            assert(k == hi / lo) by {
                vstd::arithmetic::div_mod::lemma_fundamental_div_mod_converse(hi as int, lo as int, k, h as int);
            }
        }
        v
    }

    pub fn term(&self) -> (t: Option<Outcome>)
        ensures
            t == self.term_spec(),
    {
        if self.a == 0 || self.b == 0 {
            Some(Outcome::Loss)
        } else {
            None
        }
    }

    pub fn current_player(&self) -> (p: u8)
        ensures
            p == self.current,
    {
        self.current
    }

    pub fn available_moves(&self) -> (v: Vec<u16>)
        ensures
            v@ == self.gen_spec(),
    {
        self.gen()
    }

    /// Set the larger number (the first when they are equal) to `m`.
    pub fn make_move(&mut self, m: &u16)
        requires
            old(self).current <= 1,
        ensures
            old(self).a >= old(self).b ==> final(self).a == *m as u32 && final(self).b == old(self).b,
            old(self).a < old(self).b ==> final(self).b == *m as u32 && final(self).a == old(self).a,
            final(self).current == 1 - old(self).current,
    {
        let target = *m as u32;
        if self.a >= self.b {
            self.a = target;
        } else {
            self.b = target;
        }
        self.current = 1 - self.current;
    }

    /// `a,b`.
    pub fn board_string(&self) -> (s: String)
        ensures
            s@ == dec(self.a as nat) + seq![','] + dec(self.b as nat),
    {
        let mut s = String::new();
        push_dec(&mut s, self.a as u64);
        push_char(&mut s, ',');
        push_dec(&mut s, self.b as u64);
        s
    }

    /// Once a zero shows, the seat of the player who made it; empty before.
    pub fn result_string(&self) -> (s: String)
        requires
            self.current <= 1,
        ensures
            s@ == (if self.term_spec() is Some { dec((2 - self.current) as nat) } else { seq![] }),
    {
        let mut s = String::new();
        if self.term().is_some() {
            push_dec(&mut s, 2 - self.current as u64);
        }
        s
    }

    pub fn legal_moves_string(&self) -> (s: String)
        ensures
            s@ == join_nums(u16s(self.gen_spec()), ','),
    {
        let v = self.gen();
        let mut s = String::new();
        push_joined(&mut s, &v, ',');
        s
    }

    /// Play the value that `mov` names if it is a legal move; false, leaving the game
    /// unchanged, otherwise.
    pub fn apply_text(&mut self, mov: &str) -> (ok: bool)
        requires
            old(self).current <= 1,
        ensures
            ok == (parse_uint(mov@, 65535) matches Some(v) && old(self).gen_spec().contains(v as u16)),
            !ok ==> *final(self) == *old(self),
            ok && old(self).a >= old(self).b ==> final(self).a == parse_uint(mov@, 65535)->0 && final(self).b == old(self).b,
            ok && old(self).a < old(self).b ==> final(self).b == parse_uint(mov@, 65535)->0 && final(self).a == old(self).a,
            ok ==> final(self).current == 1 - old(self).current,
    {
        let cs = chars_of(mov);
        proof {
            assert(cs@.subrange(0, cs@.len() as int) =~= mov@);
        }
        let v = match parse_uint_range(&cs, 0, cs.len(), 65535) {
            Some(v) => v,
            None => {
                return false;
            },
        };
        let m = v as u16;
        let moves = self.gen();
        let mut found = false;
        let mut i: usize = 0;
        while i < moves.len()
            invariant
                i <= moves@.len(),
                found == exists|j: int| 0 <= j < i && moves@[j] == m,
            decreases moves@.len() - i,
        {
            if moves[i] == m {
                found = true;
            }
            i += 1;
        }
        if !found {
            return false;
        }
        self.make_move(&m);
        true
    }
}

/// The game always ends: every legal move lowers the sum of the two numbers.
pub proof fn lemma_moves_shrink_the_sum(g: Euclid, k: int)
    requires
        0 <= k < g.gen_spec().len(),
    ensures
        (g.gen_spec()[k] as int) + g.lo() < g.hi() + g.lo(),
{
    let hi = g.hi();
    let lo = g.lo();
    let x = hi - (k + 1) * lo;
    vstd::arithmetic::div_mod::lemma_fundamental_div_mod(hi, lo);
    assert(0 <= x < hi) by (nonlinear_arith)
        requires
            0 <= k < hi / lo,
            lo > 0,
            hi == lo * (hi / lo) + hi % lo,
            hi % lo >= 0,
            x == hi - (k + 1) * lo,
    ;
    let xu = x as u32;
    assert((xu as u16) as int <= xu as int) by (bit_vector);
}

} // verus!
