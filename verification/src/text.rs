//! Decimal numbers and separated lists in the text forms that the front end exchanges
//! with the engines (moves such as `"12-19-26"`, comma-joined move lists).
use vstd::prelude::*;
use vstd::std_specs::iter::IteratorSpec;

verus! {

/// Appends `c` to `s`.
///
/// Trusted: `String::push` appends the character at the end of the string.
#[verifier::external_body]
pub(crate) fn push_char(s: &mut String, c: char)
    ensures
        final(s)@ == old(s)@.push(c),
{
    s.push(c);
}

/// The characters of `s`, in order.
pub(crate) fn chars_of(s: &str) -> (v: Vec<char>)
    ensures
        v@ == s@,
{
    broadcast use vstd::string::axiom_spec_iter, vstd::string::next_postcondition;
    let mut it = s.chars();
    let mut v: Vec<char> = Vec::new();
    loop
        invariant
            v@ + it.remaining() == s@,
            it.obeys_prophetic_iter_laws(),
            it.decrease() is Some,
        ensures
            v@ == s@,
        decreases it.decrease()->0,
    {
        let ghost before = it.remaining();
        match it.next() {
            Some(c) => {
                v.push(c);
                assert(v@ + it.remaining() =~= s@) by {
                    assert(before =~= seq![c] + it.remaining());
                }
            },
            None => {
                assert(v@ =~= s@);
                break;
            },
        }
    }
    v
}

pub open spec fn is_digit(c: char) -> bool {
    '0' <= c <= '9'
}

pub open spec fn digit_char(d: int) -> char {
    (d + '0' as int) as char
}

/// Decimal digits of `v`, most significant first, no leading zeros.
pub open spec fn dec(v: nat) -> Seq<char>
    decreases v,
{
    if v < 10 {
        seq![digit_char(v as int)]
    } else {
        dec(v / 10).push(digit_char((v % 10) as int))
    }
}

/// Value of a string of decimal digits.
pub open spec fn digits_val(s: Seq<char>) -> int
    decreases s.len(),
{
    if s.len() == 0 {
        0
    } else {
        digits_val(s.drop_last()) * 10 + (s.last() as int - '0' as int)
    }
}

pub open spec fn all_digits(s: Seq<char>) -> bool {
    forall|i: int| 0 <= i < s.len() ==> is_digit(#[trigger] s[i])
}

/// What `str::parse` gives for an unsigned integer type whose largest value is `max`:
/// an optional `+`, then one or more decimal digits, with the value at most `max`.
pub open spec fn parse_uint(s: Seq<char>, max: int) -> Option<int> {
    let d = if s.len() > 0 && s[0] == '+' {
        s.drop_first()
    } else {
        s
    };
    if d.len() > 0 && all_digits(d) && digits_val(d) <= max {
        Some(digits_val(d))
    } else {
        None
    }
}

proof fn lemma_digits_val_nonneg(s: Seq<char>)
    requires
        all_digits(s),
    ensures
        digits_val(s) >= 0,
    decreases s.len(),
{
    if s.len() > 0 {
        lemma_digits_val_nonneg(s.drop_last());
    }
}

/// The decimal text of `v` is nonempty, made of digits, and reads back as `v`.
pub proof fn lemma_dec(v: nat)
    ensures
        dec(v).len() >= 1,
        all_digits(dec(v)),
        digits_val(dec(v)) == v,
        dec(v)[0] != '+',
    decreases v,
{
    let x = (v % 10) as int;
    assert(0 <= x < 10);
    assert(digit_char(x) as int == x + '0' as int);
    if v >= 10 {
        lemma_dec(v / 10);
        let d = dec(v / 10);
        assert(dec(v).drop_last() =~= d);
        assert(dec(v)[0] == d[0]);
        vstd::arithmetic::div_mod::lemma_fundamental_div_mod(v as int, 10);
        assert((v / 10) * 10 == 10 * (v / 10)) by (nonlinear_arith);
        assert(dec(v).last() == digit_char(x));
        assert(digits_val(dec(v)) == digits_val(d) * 10 + x);
    } else {
        vstd::arithmetic::div_mod::lemma_small_mod(v, 10);
        assert(dec(v).drop_last() =~= Seq::<char>::empty());
        assert(digits_val(dec(v)) == digits_val(Seq::<char>::empty()) * 10 + x);
    }
}

/// Parsing the decimal text of `v` gives `v` back.
pub proof fn lemma_parse_dec(v: nat, max: int)
    requires
        v <= max,
    ensures
        parse_uint(dec(v), max) == Some(v as int),
{
    lemma_dec(v);
}

/// Appends the decimal digits of `v` to `s`.
pub fn push_dec(s: &mut String, v: u64)
    ensures
        final(s)@ == old(s)@ + dec(v as nat),
    decreases v,
{
    if v >= 10 {
        push_dec(s, v / 10);
    }
    let d = (v % 10) as u32;
    let c = char_of_digit(d);
    push_char(s, c);
    proof {
        if v < 10 {
            assert(dec(v as nat) =~= seq![digit_char(v as int)]);
        }
    }
}

fn char_of_digit(d: u32) -> (c: char)
    requires
        d < 10,
    ensures
        c == digit_char(d as int),
{
    match d {
        0 => '0',
        1 => '1',
        2 => '2',
        3 => '3',
        4 => '4',
        5 => '5',
        6 => '6',
        7 => '7',
        8 => '8',
        _ => '9',
    }
}

/// `str::parse` of the characters `s[lo..hi]` as an unsigned integer at most `max`.
pub fn parse_uint_range(s: &Vec<char>, lo: usize, hi: usize, max: u64) -> (r: Option<u64>)
    requires
        lo <= hi <= s@.len(),
    ensures
        r matches Some(v) ==> parse_uint(s@.subrange(lo as int, hi as int), max as int) == Some(v as int),
        r is None ==> parse_uint(s@.subrange(lo as int, hi as int), max as int) is None,
{
    let ghost sub = s@.subrange(lo as int, hi as int);
    let mut i = lo;
    if i < hi && s[i] == '+' {
        i += 1;
    }
    let ghost d = s@.subrange(i as int, hi as int);
    proof {
        if lo < hi && s@[lo as int] == '+' {
            assert(sub.drop_first() =~= d);
        } else {
            assert(sub =~= d);
        }
    }
    proof {
        assert(parse_uint(sub, max as int) == (if d.len() > 0 && all_digits(d) && digits_val(d) <= max {
            Some(digits_val(d))
        } else {
            None
        }));
    }
    if i == hi {
        return None;
    }
    let mut v: u64 = 0;
    let start = i;
    while i < hi
        invariant
            sub == s@.subrange(lo as int, hi as int),
            parse_uint(sub, max as int) == (if d.len() > 0 && all_digits(d) && digits_val(d) <= max {
                Some(digits_val(d))
            } else {
                None
            }),
            lo <= start < hi,
            start <= i <= hi <= s@.len(),
            d == s@.subrange(start as int, hi as int),
            all_digits(s@.subrange(start as int, i as int)),
            v as int == digits_val(s@.subrange(start as int, i as int)),
            v <= max,
        decreases hi - i,
    {
        let c = s[i];
        if !('0' <= c && c <= '9') {
            proof {
                assert(d[i - start] == c);
                assert(!is_digit(c));
                assert(!all_digits(d));
            }
            return None;
        }
        let dg = (c as u32 - '0' as u32) as u64;
        let ghost pre = s@.subrange(start as int, i as int);
        let ghost nxt = s@.subrange(start as int, i + 1);
        proof {
            assert(nxt.drop_last() =~= pre);
            assert(nxt.last() == c);
        }
        if dg > max || v > (max - dg) / 10 {
            proof {
                lemma_digits_val_nonneg(pre);
                assert(digits_val(nxt) > max) by (nonlinear_arith)
                    requires
                        digits_val(nxt) == v * 10 + dg,
                        dg > max || v > (max - dg) / 10,
                        dg <= 9,
                        v >= 0,
                ;
                assert(d.subrange(0, (i + 1 - start) as int) =~= nxt);
                if all_digits(d) {
                    lemma_digits_prefix_bound(d, (i + 1 - start) as int, max as int);
                }
            }
            return None;
        }
        proof {
            assert(v * 10 + dg <= max) by (nonlinear_arith)
                requires
                    v <= (max - dg) / 10,
                    dg <= max,
            ;
        }
        v = v * 10 + dg;
        i += 1;
    }
    proof {
        assert(s@.subrange(start as int, i as int) =~= d);
    }
    Some(v)
}

/// A string of digits whose prefix already exceeds `max` exceeds it too.
proof fn lemma_digits_prefix_bound(d: Seq<char>, k: int, max: int)
    requires
        0 < k <= d.len(),
        all_digits(d),
        digits_val(d.subrange(0, k)) > max,
    ensures
        digits_val(d) > max,
    decreases d.len() - k,
{
    if k < d.len() {
        let a = d.subrange(0, k);
        let b = d.subrange(0, k + 1);
        assert(b.drop_last() =~= a);
        assert(all_digits(a));
        lemma_digits_val_nonneg(a);
        assert(b.last() == d[k]);
        assert(digits_val(b) >= digits_val(a) * 10);
        assert(digits_val(b) > max) by (nonlinear_arith)
            requires
                digits_val(b) >= digits_val(a) * 10,
                digits_val(a) > max,
                digits_val(a) >= 0,
        ;
        lemma_digits_prefix_bound(d, k + 1, max);
    } else {
        assert(d.subrange(0, k) =~= d);
    }
}

/// The pieces of the first `k` characters of `cs` between occurrences of `sep`, as
/// `str::split` yields them (an empty text gives one empty piece).
pub open spec fn pieces(cs: Seq<char>, sep: char, k: int) -> Seq<Seq<char>>
    decreases k,
{
    if k <= 0 {
        seq![Seq::<char>::empty()]
    } else if cs[k - 1] == sep {
        pieces(cs, sep, k - 1).push(Seq::<char>::empty())
    } else {
        let p = pieces(cs, sep, k - 1);
        p.update(p.len() - 1, p.last().push(cs[k - 1]))
    }
}

/// The decimal texts of `p`, joined by `sep`.
pub open spec fn join_nums(p: Seq<int>, sep: char) -> Seq<char>
    decreases p.len(),
{
    if p.len() == 0 {
        Seq::<char>::empty()
    } else if p.len() == 1 {
        dec(p[0] as nat)
    } else {
        join_nums(p.drop_last(), sep).push(sep) + dec(p.last() as nat)
    }
}

/// `str::split(sep)` followed by `parse` of each piece as an unsigned integer of at most
/// `max`: the values when every piece parses.
pub open spec fn parse_list(cs: Seq<char>, sep: char, max: int) -> Option<Seq<int>> {
    let ps = pieces(cs, sep, cs.len() as int);
    if forall|i: int| 0 <= i < ps.len() ==> #[trigger] parse_uint(ps[i], max) is Some {
        Some(Seq::new(ps.len(), |i: int| parse_uint(ps[i], max)->0))
    } else {
        None
    }
}

pub open spec fn u16s(v: Seq<u16>) -> Seq<int> {
    Seq::new(v.len(), |i: int| v[i] as int)
}

proof fn lemma_pieces_len(cs: Seq<char>, sep: char, k: int)
    ensures
        pieces(cs, sep, k).len() >= 1,
    decreases k,
{
    if k > 0 {
        lemma_pieces_len(cs, sep, k - 1);
    }
}

/// `pieces` only reads the first `k` characters.
proof fn lemma_pieces_prefix(a: Seq<char>, b: Seq<char>, sep: char, k: int)
    requires
        0 <= k <= a.len(),
        k <= b.len(),
        a.take(k) == b.take(k),
    ensures
        pieces(a, sep, k) == pieces(b, sep, k),
    decreases k,
{
    if k > 0 {
        assert(a.take(k - 1) =~= a.take(k).take(k - 1));
        assert(b.take(k - 1) =~= b.take(k).take(k - 1));
        assert(a[k - 1] == a.take(k)[k - 1]);
        assert(b[k - 1] == b.take(k)[k - 1]);
        lemma_pieces_prefix(a, b, sep, k - 1);
    }
}

/// Appending separator-free text `y` to `x` extends the last piece of `x` by `y`.
proof fn lemma_pieces_append(x: Seq<char>, y: Seq<char>, sep: char)
    requires
        forall|i: int| 0 <= i < y.len() ==> #[trigger] y[i] != sep,
    ensures
        pieces(x + y, sep, (x + y).len() as int) == pieces(x, sep, x.len() as int).update(
            pieces(x, sep, x.len() as int).len() - 1,
            pieces(x, sep, x.len() as int).last() + y,
        ),
    decreases y.len(),
{
    let p = pieces(x, sep, x.len() as int);
    lemma_pieces_len(x, sep, x.len() as int);
    if y.len() == 0 {
        assert(x + y =~= x);
        assert(p.last() + y =~= p.last());
        assert(p.update(p.len() - 1, p.last()) =~= p);
    } else {
        let y0 = y.drop_last();
        assert forall|i: int| 0 <= i < y0.len() implies #[trigger] y0[i] != sep by {
            assert(y0[i] == y[i]);
        }
        lemma_pieces_append(x, y0, sep);
        let xy = x + y;
        let k = xy.len() as int;
        assert(xy.take(k - 1) =~= (x + y0).take(k - 1));
        lemma_pieces_prefix(xy, x + y0, sep, k - 1);
        assert((x + y0).len() == k - 1);
        assert(xy[k - 1] == y.last());
        assert(p.last() + y =~= (p.last() + y0).push(y.last()));
        let q = pieces(x + y0, sep, k - 1);
        assert(q =~= p.update(p.len() - 1, p.last() + y0));
        assert(pieces(xy, sep, k) =~= p.update(p.len() - 1, p.last() + y));
    }
}

/// Splitting the joined decimal texts of `p` gives the decimal texts back.
pub proof fn lemma_pieces_join(p: Seq<int>, sep: char)
    requires
        p.len() >= 1,
        forall|i: int| 0 <= i < p.len() ==> #[trigger] p[i] >= 0,
        !is_digit(sep),
    ensures
        pieces(join_nums(p, sep), sep, join_nums(p, sep).len() as int) == Seq::new(p.len(), |i: int| dec(p[i] as nat)),
    decreases p.len(),
{
    if p.len() == 1 {
        lemma_dec(p[0] as nat);
        let e = Seq::<char>::empty();
        assert forall|i: int| 0 <= i < dec(p[0] as nat).len() implies #[trigger] dec(p[0] as nat)[i] != sep by {}
        lemma_pieces_append(e, dec(p[0] as nat), sep);
        assert(e + dec(p[0] as nat) =~= dec(p[0] as nat));
        assert(pieces(e, sep, 0) =~= seq![e]);
        assert(e + dec(p[0] as nat) =~= dec(p[0] as nat));
        assert(pieces(join_nums(p, sep), sep, join_nums(p, sep).len() as int) =~= Seq::new(p.len(), |i: int| dec(p[i] as nat)));
    } else {
        let q = p.drop_last();
        assert forall|i: int| 0 <= i < q.len() implies #[trigger] q[i] >= 0 by {
            assert(q[i] == p[i]);
        }
        lemma_pieces_join(q, sep);
        let a = join_nums(q, sep);
        let b = a.push(sep);
        let d = dec(p.last() as nat);
        lemma_dec(p.last() as nat);
        assert forall|i: int| 0 <= i < d.len() implies #[trigger] d[i] != sep by {}
        lemma_pieces_append(b, d, sep);
        assert(b.take(a.len() as int) =~= a.take(a.len() as int));
        lemma_pieces_prefix(b, a, sep, a.len() as int);
        assert(a.take(a.len() as int) =~= a);
        let pb = pieces(b, sep, b.len() as int);
        assert(pb =~= pieces(a, sep, a.len() as int).push(Seq::<char>::empty()));
        assert(Seq::<char>::empty() + d =~= d);
        assert(pieces(join_nums(p, sep), sep, join_nums(p, sep).len() as int) =~= Seq::new(p.len(), |i: int| dec(p[i] as nat)));
    }
}

/// Reading back the joined decimal texts of values at most `max` gives the values.
pub proof fn lemma_parse_list_join(p: Seq<int>, sep: char, max: int)
    requires
        p.len() >= 1,
        forall|i: int| 0 <= i < p.len() ==> 0 <= #[trigger] p[i] <= max,
        !is_digit(sep),
        sep != '+',
    ensures
        parse_list(join_nums(p, sep), sep, max) == Some(p),
{
    lemma_pieces_join(p, sep);
    let cs = join_nums(p, sep);
    let ps = pieces(cs, sep, cs.len() as int);
    assert forall|i: int| 0 <= i < ps.len() implies #[trigger] parse_uint(ps[i], max) == Some(p[i]) by {
        lemma_parse_dec(p[i] as nat, max);
    }
    assert(Seq::new(ps.len(), |i: int| parse_uint(ps[i], max)->0) =~= p);
}

/// Appends the decimal texts of `v`, joined by `sep`.
pub fn push_joined(s: &mut String, v: &Vec<u16>, sep: char)
    ensures
        final(s)@ == old(s)@ + join_nums(u16s(v@), sep),
{
    let ghost s0 = s@;
    let mut i: usize = 0;
    while i < v.len()
        invariant
            i <= v@.len(),
            s@ == s0 + join_nums(u16s(v@.take(i as int)), sep),
        decreases v@.len() - i,
    {
        let ghost before = s@;
        if i > 0 {
            push_char(s, sep);
        }
        push_dec(s, v[i] as u64);
        proof {
            let t = u16s(v@.take(i + 1));
            assert(t.drop_last() =~= u16s(v@.take(i as int)));
            assert(t.last() == v@[i as int] as int);
            if i == 0 {
                assert(join_nums(u16s(v@.take(0)), sep) =~= Seq::<char>::empty());
                assert(s@ =~= s0 + join_nums(t, sep));
            } else {
                assert(s@ =~= s0 + join_nums(t, sep));
            }
        }
        i += 1;
    }
    proof {
        assert(v@.take(v@.len() as int) =~= v@);
    }
}

pub open spec fn u32s(v: Seq<u32>) -> Seq<int> {
    Seq::new(v.len(), |i: int| v[i] as int)
}

/// Appends the decimal texts of `v`, joined by `sep`.
pub fn push_joined_u32(s: &mut String, v: &Vec<u32>, sep: char)
    ensures
        final(s)@ == old(s)@ + join_nums(u32s(v@), sep),
{
    let ghost s0 = s@;
    let mut i: usize = 0;
    while i < v.len()
        invariant
            i <= v@.len(),
            s@ == s0 + join_nums(u32s(v@.take(i as int)), sep),
        decreases v@.len() - i,
    {
        if i > 0 {
            push_char(s, sep);
        }
        push_dec(s, v[i] as u64);
        proof {
            let t = u32s(v@.take(i + 1));
            assert(t.drop_last() =~= u32s(v@.take(i as int)));
            assert(t.last() == v@[i as int] as int);
            if i == 0 {
                assert(join_nums(u32s(v@.take(0)), sep) =~= Seq::<char>::empty());
            }
            assert(s@ =~= s0 + join_nums(t, sep));
        }
        i += 1;
    }
    proof {
        assert(v@.take(v@.len() as int) =~= v@);
    }
}

/// `str::split(sep)` and `parse::<u16>` of each piece, all of which must succeed.
pub fn parse_u16_list(cs: &Vec<char>, sep: char) -> (r: Option<Vec<u16>>)
    ensures
        r matches Some(v) ==> parse_list(cs@, sep, u16::MAX as int) == Some(u16s(v@)),
        r is None ==> parse_list(cs@, sep, u16::MAX as int) is None,
{
    let ghost max = u16::MAX as int;
    let mut out: Vec<u16> = Vec::new();
    let mut start: usize = 0;
    let mut i: usize = 0;
    while i < cs.len()
        invariant
            max == 65535,
            start <= i <= cs@.len(),
            pieces(cs@, sep, i as int).len() == out@.len() + 1,
            pieces(cs@, sep, i as int).last() == cs@.subrange(start as int, i as int),
            forall|j: int| 0 <= j < out@.len() ==> parse_uint(#[trigger] pieces(cs@, sep, i as int)[j], max) == Some(out@[j] as int),
        decreases cs@.len() - i,
    {
        if cs[i] == sep {
            match parse_uint_range(cs, start, i, u16::MAX as u64) {
                Some(v) => {
                    let ghost o0 = out@;
                    proof {
                        assert(v <= 65535);
                        assert(parse_uint(cs@.subrange(start as int, i as int), 65535) == Some(v as int));
                    }
                    out.push(v as u16);
                    proof {
                        let p = pieces(cs@, sep, i as int);
                        assert(pieces(cs@, sep, i + 1) =~= p.push(Seq::<char>::empty()));
                        assert forall|j: int| 0 <= j < out@.len() implies parse_uint(#[trigger] pieces(cs@, sep, i + 1)[j], max) == Some(out@[j] as int) by {
                            if j < o0.len() {
                                assert(pieces(cs@, sep, i + 1)[j] == p[j]);
                                assert(out@[j] == o0[j]);
                                assert(parse_uint(p[j], max) == Some(o0[j] as int));
                            } else {
                                assert(pieces(cs@, sep, i + 1)[j] == p.last());
                                assert(p.last() == cs@.subrange(start as int, i as int));
                                assert(parse_uint(p.last(), max) == Some(v as int));
                                assert(out@[j] as int == v);
                            }
                        }
                        assert(cs@.subrange(i + 1, i + 1) =~= Seq::<char>::empty());
                    }
                    start = i + 1;
                },
                None => {
                    proof {
                        let p = pieces(cs@, sep, i as int);
                        lemma_pieces_tail(cs@, sep, i as int, out@.len() as int);
                    }
                    return None;
                },
            }
        } else {
            proof {
                let p = pieces(cs@, sep, i as int);
                assert(cs@.subrange(start as int, i + 1) =~= cs@.subrange(start as int, i as int).push(cs@[i as int]));
                assert(pieces(cs@, sep, i + 1) == p.update(p.len() - 1, p.last().push(cs@[i as int])));
                assert forall|j: int| 0 <= j < out@.len() implies parse_uint(#[trigger] pieces(cs@, sep, i + 1)[j], max) == Some(out@[j] as int) by {
                    assert(pieces(cs@, sep, i + 1)[j] == p[j]);
                }
            }
        }
        i += 1;
    }
    match parse_uint_range(cs, start, i, u16::MAX as u64) {
        Some(v) => {
            let ghost o0 = out@;
            out.push(v as u16);
            proof {
                let ps = pieces(cs@, sep, cs@.len() as int);
                assert forall|j: int| 0 <= j < ps.len() implies #[trigger] parse_uint(ps[j], max) == Some(out@[j] as int) by {
                    if j < o0.len() {
                    } else {
                        assert(ps[j] == ps.last());
                    }
                }
                assert(Seq::new(ps.len(), |j: int| parse_uint(ps[j], max)->0) =~= u16s(out@));
            }
            Some(out)
        },
        None => {
            proof {
                let ps = pieces(cs@, sep, cs@.len() as int);
                assert(parse_uint(ps[ps.len() - 1], max) is None);
            }
            None
        },
    }
}

/// Pieces already closed by a separator stay unchanged as the text grows.
proof fn lemma_pieces_tail(cs: Seq<char>, sep: char, i: int, j: int)
    requires
        0 <= i <= cs.len(),
        0 <= j < pieces(cs, sep, i).len(),
    ensures
        pieces(cs, sep, cs.len() as int).len() >= pieces(cs, sep, i).len(),
        j < pieces(cs, sep, i).len() - 1 ==> pieces(cs, sep, cs.len() as int)[j] == pieces(cs, sep, i)[j],
        i < cs.len() && cs[i] == sep ==> pieces(cs, sep, cs.len() as int)[j] == pieces(cs, sep, i)[j],
    decreases cs.len() - i,
{
    if i < cs.len() {
        lemma_pieces_len(cs, sep, i);
        let p = pieces(cs, sep, i);
        let q = pieces(cs, sep, i + 1);
        if cs[i] == sep {
            assert(q[j] == p[j]);
        } else {
            if j < p.len() - 1 {
                assert(q[j] == p[j]);
            }
        }
        if j < q.len() {
            lemma_pieces_tail(cs, sep, i + 1, j);
        }
        if i + 1 < cs.len() {
        }
    }
}

/// Appends the characters `cs`.
pub fn push_all(s: &mut String, cs: &[char])
    ensures
        final(s)@ == old(s)@ + cs@,
{
    let ghost s0 = s@;
    let mut i: usize = 0;
    while i < cs.len()
        invariant
            i <= cs@.len(),
            s@ == s0 + cs@.take(i as int),
        decreases cs@.len() - i,
    {
        push_char(s, cs[i]);
        i += 1;
        assert(s@ =~= s0 + cs@.take(i as int));
    }
    assert(cs@.take(cs@.len() as int) =~= cs@);
}

/// Appends the characters of `t`.
pub fn push_str(s: &mut String, t: &str)
    ensures
        final(s)@ == old(s)@ + t@,
{
    let cs = chars_of(t);
    push_all(s, cs.as_slice());
}

/// Whether two character sequences are equal.
pub fn chars_eq(a: &[char], b: &[char]) -> (r: bool)
    ensures
        r == (a@ == b@),
{
    if a.len() != b.len() {
        return false;
    }
    let mut i: usize = 0;
    while i < a.len()
        invariant
            a@.len() == b@.len(),
            i <= a@.len(),
            forall|j: int| 0 <= j < i ==> a@[j] == b@[j],
        decreases a@.len() - i,
    {
        if a[i] != b[i] {
            return false;
        }
        i += 1;
    }
    assert(a@ =~= b@);
    true
}

} // verus!
