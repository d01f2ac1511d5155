//! Mu Tōrere, the Māori game on an eight-point star with a centre: slide a piece
//! into the empty point. A ring piece may enter the centre only beside an enemy
//! piece (the kewai rule). A player who cannot move loses.
use vstd::prelude::*;
use crate::outcome::Outcome;
use crate::text::{push_char, push_str, push_dec, push_joined, join_nums, u16s, dec, chars_of, parse_u16_list, parse_list, lemma_parse_list_join};

verus! {

#[derive(Clone, Copy, Debug, PartialEq, Eq, Structural)]
pub struct MtMove {
    pub from: u16,
    pub to: u16,
}

#[derive(Clone, Copy, Debug)]
pub struct MuTorere {
    /// Index 0 is the centre, 1..=8 the ring clockwise; -1 empty.
    pub cells: [i8; 9],
    pub current: u8,
}

pub open spec fn ring_prev_spec(i: int) -> int {
    if i == 1 { 8 } else { i - 1 }
}

pub open spec fn ring_next_spec(i: int) -> int {
    if i == 8 { 1 } else { i + 1 }
}

pub fn ring_prev(i: usize) -> (j: usize)
    requires
        1 <= i <= 8,
    ensures
        j == ring_prev_spec(i as int),
{
    if i == 1 { 8 } else { i - 1 }
}

pub fn ring_next(i: usize) -> (j: usize)
    requires
        1 <= i <= 8,
    ensures
        j == ring_next_spec(i as int),
{
    if i == 8 { 1 } else { i + 1 }
}

/// The first empty point among the first `n`.
pub open spec fn first_empty(c: Seq<i8>, n: int) -> Option<int>
    decreases n,
{
    if n <= 0 {
        None
    } else {
        match first_empty(c, n - 1) {
            Some(e) => Some(e),
            None => if c[n - 1] < 0 { Some(n - 1) } else { None },
        }
    }
}

proof fn lemma_first_empty(c: Seq<i8>, n: int)
    requires
        0 <= n <= c.len(),
    ensures
        first_empty(c, n) matches Some(e) ==> 0 <= e < n && c[e] < 0 && forall|k: int| 0 <= k < e ==> #[trigger] c[k] >= 0,
        first_empty(c, n) is None ==> forall|k: int| 0 <= k < n ==> #[trigger] c[k] >= 0,
    decreases n,
{
    if n > 0 {
        lemma_first_empty(c, n - 1);
    }
}

impl MuTorere {
    pub open spec fn wf(&self) -> bool {
        self.current <= 1
    }

    /// The moves of the piece of the side to move on point `from`, given the empty
    /// point `e`: from the centre onto the empty ring point; from the ring onto an
    /// empty neighbour (the previous, then the next), then into an empty centre when
    /// a ring neighbour holds an enemy piece.
    pub open spec fn cell_moves(&self, from: int, e: int) -> Seq<MtMove> {
        let c = self.cells@;
        let me = self.current as i8;
        if c[from] != me {
            seq![]
        } else if from == 0 {
            if e != 0 { seq![MtMove { from: 0, to: e as u16 }] } else { seq![] }
        } else {
            let (p, n) = (ring_prev_spec(from), ring_next_spec(from));
            (if p == e { seq![MtMove { from: from as u16, to: p as u16 }] } else { seq![] })
                + (if n == e { seq![MtMove { from: from as u16, to: n as u16 }] } else { seq![] })
                + (if e == 0 && (c[p] == 1 - me || c[n] == 1 - me) { seq![MtMove { from: from as u16, to: 0 }] } else { seq![] })
        }
    }

    pub open spec fn gen_upto(&self, e: int, n: int) -> Seq<MtMove>
        decreases n,
    {
        if n <= 0 {
            seq![]
        } else {
            self.gen_upto(e, n - 1) + self.cell_moves(n - 1, e)
        }
    }

    pub open spec fn gen_spec(&self) -> Seq<MtMove> {
        match first_empty(self.cells@, 9) {
            Some(e) => self.gen_upto(e, 9),
            None => seq![],
        }
    }

    pub open spec fn term_spec(&self) -> Option<Outcome> {
        if self.gen_spec().len() == 0 {
            Some(Outcome::Loss)
        } else {
            None
        }
    }

    /// The opening: the centre empty, points 1..=4 the first player's, 5..=8 the
    /// second's.
    pub fn new() -> (g: Self)
        ensures
            g.cells@ == seq![-1i8, 0, 0, 0, 0, 1, 1, 1, 1],
            g.current == 0,
    {
        MuTorere { cells: [-1, 0, 0, 0, 0, 1, 1, 1, 1], current: 0 }
    }

    fn cell_gen(&self, from: usize, e: usize, v: &mut Vec<MtMove>)
        requires
            from < 9,
            e < 9,
            self.wf(),
        ensures
            final(v)@ == old(v)@ + self.cell_moves(from as int, e as int),
    {
        let ghost v0 = v@;
        let me = self.current as i8;
        if self.cells[from] != me {
            return;
        }
        if from == 0 {
            if e != 0 {
                v.push(MtMove { from: 0, to: e as u16 });
            }
            return;
        }
        let p = ring_prev(from);
        let n = ring_next(from);
        if p == e {
            v.push(MtMove { from: from as u16, to: p as u16 });
        }
        if n == e {
            v.push(MtMove { from: from as u16, to: n as u16 });
        }
        if e == 0 && (self.cells[p] == 1 - me || self.cells[n] == 1 - me) {
            v.push(MtMove { from: from as u16, to: 0 });
        }
        proof {
            assert(v@ =~= v0 + self.cell_moves(from as int, e as int));
        }
    }

    pub fn gen(&self) -> (v: Vec<MtMove>)
        requires
            self.wf(),
        ensures
            v@ == self.gen_spec(),
    {
        let mut v: Vec<MtMove> = Vec::new();
        let mut k: usize = 0;
        let mut empty: Option<usize> = None;
        while k < 9
            invariant
                k <= 9,
                empty matches Some(e) ==> first_empty(self.cells@, k as int) == Some(e as int) && e < 9,
                empty is None ==> first_empty(self.cells@, k as int) is None,
            decreases 9 - k,
        {
            if empty.is_none() && self.cells[k] < 0 {
                empty = Some(k);
            }
            k += 1;
        }
        let e = match empty {
            Some(e) => e,
            None => {
                return v;
            },
        };
        let mut from: usize = 0;
        while from < 9
            invariant
                self.wf(),
                e < 9,
                first_empty(self.cells@, 9) == Some(e as int),
                from <= 9,
                v@ == self.gen_upto(e as int, from as int),
            decreases 9 - from,
        {
            self.cell_gen(from, e, &mut v);
            from += 1;
        }
        v
    }

    pub fn term(&self) -> (t: Option<Outcome>)
        requires
            self.wf(),
        ensures
            t == self.term_spec(),
    {
        if self.gen().len() == 0 {
            Some(Outcome::Loss)
        } else {
            None
        }
    }

    pub fn current_player(&self) -> (p: u8)
        ensures
            p == self.current,
    {
        self.current
    }

    pub fn available_moves(&self) -> (v: Vec<MtMove>)
        requires
            self.wf(),
        ensures
            v@ == self.gen_spec(),
    {
        self.gen()
    }

    /// Slide the piece; the other side moves next.
    pub fn make_move(&mut self, m: &MtMove)
        requires
            old(self).wf(),
            m.from < 9,
            m.to < 9,
        ensures
            final(self).wf(),
            final(self).cells@ == old(self).cells@.update(m.to as int, old(self).current as i8).update(m.from as int, -1i8),
            final(self).current == 1 - old(self).current,
    {
        self.cells[m.to as usize] = self.current as i8;
        self.cells[m.from as usize] = -1;
        self.current = 1 - self.current;
    }

    proof fn lemma_moves_slide(&self, e: int, n: int)
        requires
            self.wf(),
            0 <= e < 9,
            self.cells@[e] < 0,
            0 <= n <= 9,
        ensures
            forall|k: int| 0 <= k < self.gen_upto(e, n).len() ==> {
                let m = #[trigger] self.gen_upto(e, n)[k];
                &&& (m.from as int) < 9 && m.to as int == e
                &&& self.cells@[m.from as int] == self.current as i8
                &&& (m.from == 0 || m.to == 0 || m.to as int == ring_prev_spec(m.from as int) || m.to as int
                    == ring_next_spec(m.from as int))
            },
        decreases n,
    {
        if n > 0 {
            self.lemma_moves_slide(e, n - 1);
            let a = self.gen_upto(e, n - 1);
            let cm = self.cell_moves(n - 1, e);
            assert forall|k: int| 0 <= k < self.gen_upto(e, n).len() implies {
                let m = #[trigger] self.gen_upto(e, n)[k];
                &&& (m.from as int) < 9 && m.to as int == e
                &&& self.cells@[m.from as int] == self.current as i8
                &&& (m.from == 0 || m.to == 0 || m.to as int == ring_prev_spec(m.from as int) || m.to as int
                    == ring_next_spec(m.from as int))
            } by {
                if k >= a.len() {
                    let j = k - a.len();
                    assert(self.gen_upto(e, n)[k] == cm[j]);
                    let from = n - 1;
                    if from != 0 && self.cells@[from] == self.current as i8 {
                        let (p, q) = (ring_prev_spec(from), ring_next_spec(from));
                        let s1 = if p == e { seq![MtMove { from: from as u16, to: p as u16 }] } else { seq![] };
                        let s2 = if q == e { seq![MtMove { from: from as u16, to: q as u16 }] } else { seq![] };
                        let s3 = if e == 0 && (self.cells@[p] == 1 - self.current as i8 || self.cells@[q] == 1
                            - self.current as i8) {
                            seq![MtMove { from: from as u16, to: 0 }]
                        } else {
                            seq![]
                        };
                        assert(cm == s1 + s2 + s3);
                        if j < s1.len() {
                            assert(cm[j] == s1[j]);
                        } else if j < s1.len() + s2.len() {
                            assert(cm[j] == s2[j - s1.len()]);
                        } else {
                            assert(cm[j] == s3[j - s1.len() - s2.len()]);
                        }
                    }
                } else {
                    assert(self.gen_upto(e, n)[k] == a[k]);
                }
            }
        }
    }
}

/// Every move slides a piece of the side to move into the one empty point, from a
/// neighbouring ring point, from the centre, or from the ring into the centre.
pub proof fn lemma_moves_fill_the_empty_point(g: MuTorere)
    requires
        g.wf(),
    ensures
        forall|k: int| 0 <= k < g.gen_spec().len() ==> {
            let m = #[trigger] g.gen_spec()[k];
            &&& (m.from as int) < 9 && (m.to as int) < 9
            &&& g.cells@[m.to as int] < 0
            &&& g.cells@[m.from as int] == g.current as i8
            &&& (m.from == 0 || m.to == 0 || m.to as int == ring_prev_spec(m.from as int) || m.to as int
                == ring_next_spec(m.from as int))
        },
{
    lemma_first_empty(g.cells@, 9);
    if let Some(e) = first_empty(g.cells@, 9) {
        g.lemma_moves_slide(e, 9);
    }
}

/// Text of a move: `from-to`.
pub open spec fn move_text(m: MtMove) -> Seq<char> {
    join_nums(seq![m.from as int, m.to as int], '-')
}

pub open spec fn moves_text(ms: Seq<MtMove>) -> Seq<char>
    decreases ms.len(),
{
    if ms.len() == 0 {
        seq![]
    } else if ms.len() == 1 {
        move_text(ms[0])
    } else {
        moves_text(ms.drop_last()) + seq![','] + move_text(ms.last())
    }
}

/// The move that `cs` names: two numbers split at the `-`, each read as a `u16`.
pub open spec fn parse_move_spec(cs: Seq<char>) -> Option<MtMove> {
    match parse_list(cs, '-', 65535) {
        Some(v) => if v.len() == 2 {
            Some(MtMove { from: v[0] as u16, to: v[1] as u16 })
        } else {
            None
        },
        None => None,
    }
}

impl MtMove {
    pub fn encode(&self) -> (s: String)
        ensures
            s@ == move_text(*self),
    {
        let v: Vec<u16> = vec![self.from, self.to];
        let mut s = String::new();
        push_joined(&mut s, &v, '-');
        assert(u16s(v@) =~= seq![self.from as int, self.to as int]);
        s
    }
}

pub fn parse_mt_move(mov: &str) -> (r: Option<MtMove>)
    ensures
        r == parse_move_spec(mov@),
{
    let cs = chars_of(mov);
    match parse_u16_list(&cs, '-') {
        Some(p) => if p.len() == 2 {
            assert(u16s(p@)[0] == p@[0] as int && u16s(p@)[1] == p@[1] as int);
            Some(MtMove { from: p[0], to: p[1] })
        } else {
            None
        },
        None => None,
    }
}

/// The text of a move reads back as that move.
pub proof fn lemma_move_text_round_trip(m: MtMove)
    ensures
        parse_move_spec(move_text(m)) == Some(m),
{
    lemma_parse_list_join(seq![m.from as int, m.to as int], '-', 65535);
}

/// Cell character: `X` first player, `O` second player, ` ` empty.
pub open spec fn cell_char(v: i8) -> char {
    if v == 0 {
        'X'
    } else if v == 1 {
        'O'
    } else {
        ' '
    }
}

impl MuTorere {
    /// Nine characters: the centre, then the ring from point 1.
    pub fn board_string(&self) -> (s: String)
        ensures
            s@ == Seq::new(9, |i: int| cell_char(self.cells@[i])),
    {
        let mut s = String::new();
        let mut i: usize = 0;
        while i < 9
            invariant
                i <= 9,
                s@ == Seq::new(i as nat, |j: int| cell_char(self.cells@[j])),
            decreases 9 - i,
        {
            let v = self.cells[i];
            push_char(&mut s, if v == 0 { 'X' } else if v == 1 { 'O' } else { ' ' });
            assert(s@ =~= Seq::new((i + 1) as nat, |j: int| cell_char(self.cells@[j])));
            i += 1;
        }
        s
    }

    /// The winner counted from 1 once the side to move is stuck; empty before.
    pub fn result_string(&self) -> (s: String)
        requires
            self.wf(),
        ensures
            s@ == (if self.term_spec() is Some { dec((1 - self.current + 1) as nat) } else { seq![] }),
    {
        let mut s = String::new();
        if self.term().is_some() {
            push_dec(&mut s, (1 - self.current) as u64 + 1);
        }
        s
    }

    pub fn legal_moves_string(&self) -> (s: String)
        requires
            self.wf(),
        ensures
            s@ == moves_text(self.gen_spec()),
    {
        let moves = self.gen();
        let mut s = String::new();
        let mut i: usize = 0;
        while i < moves.len()
            invariant
                i <= moves@.len(),
                s@ == moves_text(moves@.take(i as int)),
            decreases moves@.len() - i,
        {
            if i > 0 {
                push_char(&mut s, ',');
            }
            let t = moves[i].encode();
            push_str(&mut s, t.as_str());
            proof {
                assert(moves@.take(i + 1).drop_last() =~= moves@.take(i as int));
            }
            i += 1;
        }
        assert(moves@.take(moves@.len() as int) =~= moves@);
        s
    }

    /// Play the move that `mov` names if it is legal; false, leaving the game
    /// unchanged, otherwise.
    pub fn apply_text(&mut self, mov: &str) -> (ok: bool)
        requires
            old(self).wf(),
        ensures
            final(self).wf(),
            ok == (parse_move_spec(mov@) matches Some(m) && old(self).gen_spec().contains(m)),
            !ok ==> *final(self) == *old(self),
            ok ==> final(self).cells@ == old(self).cells@.update(parse_move_spec(mov@)->0.to as int, old(self).current as i8).update(
                parse_move_spec(mov@)->0.from as int,
                -1i8,
            ) && final(self).current == 1 - old(self).current,
    {
        let m = match parse_mt_move(mov) {
            Some(m) => m,
            None => {
                return false;
            },
        };
        let moves = self.gen();
        let mut found = false;
        let mut i: usize = 0;
        while i < moves.len()
            invariant
                i <= moves@.len(),
                found == exists|j: int| 0 <= j < i && moves@[j] == m,
            decreases moves@.len() - i,
        {
            if moves[i] == m {
                found = true;
            }
            i += 1;
        }
        if !found {
            return false;
        }
        proof {
            lemma_moves_fill_the_empty_point(*self);
            let j = choose|j: int| 0 <= j < moves@.len() && moves@[j] == m;
            assert(self.gen_spec()[j] == m);
        }
        self.make_move(&m);
        true
    }
}

} // verus!
