//! Game-theoretic value of a finished position and small facts shared by the engines.
use vstd::prelude::*;

verus! {

/// Value of a terminal position for the player to move.
#[derive(Clone, Copy, Debug, PartialEq, Eq, Structural)]
pub enum Outcome {
    Win,
    Loss,
    Draw,
}

/// A sequence of distinct values below `bound` has at most `bound` elements.
pub proof fn lemma_distinct_bounded(s: Seq<u16>, bound: int)
    requires
        s.no_duplicates(),
        forall|i: int| 0 <= i < s.len() ==> (#[trigger] s[i] as int) < bound,
    ensures
        s.len() <= if bound < 0 { 0 } else { bound },
    decreases if bound < 0 { 0 } else { bound },
{
    if s.len() == 0 {
        return;
    }
    if bound <= 0 {
        assert(s[0] as int >= 0);
        return;
    }
    let top = (bound - 1) as u16;
    if s.contains(top) {
        let k = choose|k: int| 0 <= k < s.len() && s[k] == top;
        let t = s.remove(k);
        s.remove_ensures(k);
        assert forall|a: int, b: int| 0 <= a < t.len() && 0 <= b < t.len() && a != b implies t[a] != t[b] by {
            let ia = if a < k { a } else { a + 1 };
            let ib = if b < k { b } else { b + 1 };
            assert(t[a] == s[ia]);
            assert(t[b] == s[ib]);
        }
        assert forall|i: int| 0 <= i < t.len() implies (#[trigger] t[i] as int) < bound - 1 by {
            let ii = if i < k { i } else { i + 1 };
            assert(t[i] == s[ii]);
            assert(ii != k);
        }
        lemma_distinct_bounded(t, bound - 1);
    } else {
        assert forall|i: int| 0 <= i < s.len() implies (#[trigger] s[i] as int) < bound - 1 by {
            assert(s[i] != top);
        }
        lemma_distinct_bounded(s, bound - 1);
    }
}

} // verus!
