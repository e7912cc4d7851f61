//! What the breadth-first search keeps track of, and facts about increasing sequences.
use vstd::prelude::*;
use crate::layout::{ancestor, group_start};
use crate::geometry::BoxI32;
use crate::query::{Query, leaf_match};

verus! {

/// `s` is strictly increasing.
pub open spec fn increasing(s: Seq<usize>) -> bool {
    forall|a: int, b: int| 0 <= a < b < s.len() ==> s[a] < s[b]
}

/// Leaf position `q` answers `query`.
pub open spec fn matching(bs: Seq<BoxI32>, query: Query, n: int, q: int) -> bool {
    0 <= q < n && leaf_match(query, bs[q])
}

/// The search has passed leaf `q` on: its group is queued for the level below, or, on
/// the leaf level, its id is among the results.
pub open spec fn handled(
    lb: Seq<usize>,
    ix: Seq<u32>,
    level: int,
    next: Seq<usize>,
    results: Seq<usize>,
    q: int,
) -> bool {
    if level > 0 {
        next.contains(group_start(lb, level - 1, ancestor(lb, q, level - 1)) as usize)
    } else {
        results.contains(ix[q] as usize)
    }
}

/// A value in an increasing sequence below the entry after `fi` is at most the entry at `fi`.
pub(crate) proof fn lemma_increasing_member(s: Seq<usize>, fi: int, g: usize)
    requires
        increasing(s),
        0 <= fi < s.len(),
        s.contains(g),
        fi + 1 == s.len() || g < s[fi + 1],
    ensures
        g <= s[fi],
        g == s[fi] || fi > 0 && g <= s[fi - 1],
{
    let j = choose|j: int| 0 <= j < s.len() && s[j] == g;
    if j > fi {
        assert(s[fi + 1] <= s[j]) by {
            if fi + 1 < j {
                assert(s[fi + 1] < s[j]);
            }
        }
    }
    if j < fi {
        assert(s[j] <= s[fi - 1]) by {
            if j < fi - 1 {
                assert(s[j] < s[fi - 1]);
            }
        }
    }
}

/// A strictly increasing sequence of positions below `n` has at most `n` entries.
pub(crate) proof fn lemma_increasing_len(s: Seq<int>, n: int)
    requires
        n >= 0,
        forall|j: int| 0 <= j < s.len() ==> 0 <= #[trigger] s[j] < n,
        forall|a: int, c: int| 0 <= a < c < s.len() ==> s[a] < s[c],
    ensures
        s.len() <= n,
    decreases s.len(),
{
    if s.len() > 0 {
        let t = s.drop_last();
        assert forall|j: int| 0 <= j < t.len() implies 0 <= #[trigger] t[j] < s.last() by {
            assert(s[j] < s[s.len() - 1]);
            assert(s[j] >= 0);
        }
        lemma_increasing_len(t, s.last());
        assert(s.last() < n);
    }
}

} // verus!
