//! Difficulty: the integer part of the weakening dial. After a search, the replies at
//! the root are ranked by visits; the `top_k` most visited are the candidates. A reply
//! proven lost for the opponent is always taken, a single candidate is taken as it is,
//! and otherwise the candidates go to a weighted draw.
use vstd::prelude::*;

verus! {

/// Reply `a` ranks before reply `b`: more visits, or as many and listed earlier.
pub open spec fn ranks_before(visits: Seq<u64>, a: int, b: int) -> bool {
    visits[a] > visits[b] || (visits[a] == visits[b] && a < b)
}

/// `order` lists every reply index once, most visited first, ties in listed order.
pub open spec fn by_visits(visits: Seq<u64>, order: Seq<usize>) -> bool {
    &&& order.len() == visits.len()
    &&& forall|i: int| 0 <= i < order.len() ==> (#[trigger] order[i] as int) < visits.len()
    &&& forall|i: int, j: int| 0 <= i < j < order.len() ==> ranks_before(visits, #[trigger] order[i] as int, #[trigger] order[j] as int)
}

/// The replies ranked by visits, most visited first; equal counts keep their order.
pub fn rank_by_visits(visits: &Vec<u64>) -> (order: Vec<usize>)
    ensures
        by_visits(visits@, order@),
{
    let n = visits.len();
    let mut order: Vec<usize> = Vec::new();
    let mut i: usize = 0;
    while i < n
        invariant
            n == visits@.len(),
            i <= n,
            order@.len() == i,
            forall|k: int| 0 <= k < order@.len() ==> (#[trigger] order@[k] as int) < i,
            forall|a: int, b: int| 0 <= a < b < order@.len() ==> ranks_before(visits@, #[trigger] order@[a] as int, #[trigger] order@[b] as int),
        decreases n - i,
    {
        let mut p: usize = 0;
        while p < order.len() && visits[order[p]] >= visits[i]
            invariant
                n == visits@.len(),
                i < n,
                order@.len() == i,
                p <= order@.len(),
                forall|k: int| 0 <= k < order@.len() ==> (#[trigger] order@[k] as int) < i,
                forall|k: int| 0 <= k < p ==> visits@[#[trigger] order@[k] as int] >= visits@[i as int],
            decreases order@.len() - p,
        {
            p += 1;
        }
        let ghost old_order = order@;
        proof {
            assert forall|b: int| p <= b < old_order.len() implies visits@[#[trigger] old_order[b] as int] < visits@[i as int] by {
                if b > p {
                    assert(ranks_before(visits@, old_order[p as int] as int, old_order[b] as int));
                }
            }
        }
        order.insert(p, i);
        proof {
            let o = order@;
            assert forall|k: int| 0 <= k < o.len() implies (#[trigger] o[k] as int) < i + 1 by {
                if k < p {
                    assert(o[k] == old_order[k]);
                } else if k > p {
                    assert(o[k] == old_order[k - 1]);
                }
            }
            assert forall|a: int, b: int| 0 <= a < b < o.len() implies ranks_before(visits@, #[trigger] o[a] as int, #[trigger] o[b] as int) by {
                if b < p {
                    assert(o[a] == old_order[a] && o[b] == old_order[b]);
                } else if b == p {
                    assert(o[a] == old_order[a]);
                } else if a < p {
                    assert(o[a] == old_order[a] && o[b] == old_order[b - 1]);
                    if p < old_order.len() {
                        assert(visits@[old_order[p as int] as int] < visits@[i as int]);
                        if b - 1 > p {
                            assert(visits@[old_order[b - 1] as int] < visits@[i as int]);
                        }
                    }
                } else if a == p {
                    assert(o[b] == old_order[b - 1]);
                    if b - 1 > p {
                        assert(visits@[old_order[b - 1] as int] < visits@[i as int]);
                    }
                } else {
                    assert(o[a] == old_order[a - 1] && o[b] == old_order[b - 1]);
                }
            }
        }
        i += 1;
    }
    order
}

/// What the dial does with the ranked replies.
#[derive(Clone, Debug, PartialEq, Eq)]
pub enum Preselection {
    /// There is no reply.
    Nothing,
    /// Play this reply.
    Take(usize),
    /// Draw among these replies, most visited first.
    Weigh(Vec<usize>),
}

/// `top_k` held between 1 and the number of replies.
pub open spec fn clamp_k(top_k: int, n: int) -> int {
    if top_k > n {
        n
    } else if top_k < 1 {
        1
    } else {
        top_k
    }
}

/// Index in `cands` of the first reply proven lost for the opponent, or `cands.len()`.
pub open spec fn first_lost(cands: Seq<usize>, lost: Seq<bool>, k: int) -> int
    decreases cands.len() - k,
{
    if k >= cands.len() || k < 0 {
        cands.len() as int
    } else if lost[cands[k] as int] {
        k
    } else {
        first_lost(cands, lost, k + 1)
    }
}

/// The candidates are the first `top_k` (at least one) of `order`; the first of them
/// proven lost for the opponent is taken, a lone candidate is taken, and otherwise the
/// candidates are weighed.
pub fn preselect(order: &Vec<usize>, lost: &Vec<bool>, top_k: usize) -> (r: Preselection)
    requires
        forall|i: int| 0 <= i < order@.len() ==> (#[trigger] order@[i] as int) < lost@.len(),
    ensures
        ({
            let k = clamp_k(top_k as int, order@.len() as int);
            let cands = order@.take(k);
            let f = first_lost(cands, lost@, 0);
            if order@.len() == 0 {
                r == Preselection::Nothing
            } else if f < k {
                r == Preselection::Take(cands[f])
            } else if k == 1 {
                r == Preselection::Take(order@[0])
            } else {
                r matches Preselection::Weigh(c) && c@ == cands
            }
        }),
{
    let n = order.len();
    if n == 0 {
        return Preselection::Nothing;
    }
    let k: usize = if top_k > n {
        n
    } else if top_k < 1 {
        1
    } else {
        top_k
    };
    let ghost cands = order@.take(k as int);
    let mut j: usize = 0;
    while j < k
        invariant
            k <= order@.len(),
            k == clamp_k(top_k as int, order@.len() as int),
            cands == order@.take(k as int),
            cands.len() == k,
            forall|i: int| 0 <= i < order@.len() ==> (#[trigger] order@[i] as int) < lost@.len(),
            j <= k,
            first_lost(cands, lost@, 0) == first_lost(cands, lost@, j as int),
        decreases k - j,
    {
        if lost[order[j]] {
            assert(cands[j as int] == order@[j as int]);
            assert(first_lost(cands, lost@, j as int) == j);
            assert(k == clamp_k(top_k as int, order@.len() as int));
            assert(first_lost(cands, lost@, 0) == j);
            return Preselection::Take(order[j]);
        }
        j += 1;
    }
    if k == 1 {
        return Preselection::Take(order[0]);
    }
    let mut c: Vec<usize> = Vec::new();
    let mut t: usize = 0;
    while t < k
        invariant
            k <= order@.len(),
            t <= k,
            c@ == order@.take(t as int),
        decreases k - t,
    {
        c.push(order[t]);
        t += 1;
        assert(c@ =~= order@.take(t as int));
    }
    Preselection::Weigh(c)
}

} // verus!
