//! Sorting of 64-bit keys.
use vstd::prelude::*;
use vstd::seq_lib::group_to_multiset_ensures;
use vstd::seq_lib::lemma_multiset_commutative;

verus! {

/// `s` is in non-decreasing order.
pub open spec fn sorted(s: Seq<u64>) -> bool {
    forall|i: int, j: int| 0 <= i < j < s.len() ==> s[i] <= s[j]
}

/// Merges two sorted sequences into one sorted sequence holding the elements of both.
fn merge(a: &Vec<u64>, b: &Vec<u64>) -> (r: Vec<u64>)
    requires
        sorted(a@),
        sorted(b@),
    ensures
        sorted(r@),
        r@.to_multiset() == a@.to_multiset().add(b@.to_multiset()),
{
    broadcast use group_to_multiset_ensures, vstd::multiset::group_multiset_axioms;

    let mut r: Vec<u64> = Vec::new();
    let mut i: usize = 0;
    let mut j: usize = 0;
    while i < a.len() || j < b.len()
        invariant
            sorted(a@),
            sorted(b@),
            sorted(r@),
            i <= a.len(),
            j <= b.len(),
            r@.to_multiset() == a@.subrange(0, i as int).to_multiset().add(
                b@.subrange(0, j as int).to_multiset(),
            ),
            r@.len() > 0 && i < a.len() ==> r@.last() <= a@[i as int],
            r@.len() > 0 && j < b.len() ==> r@.last() <= b@[j as int],
        decreases a.len() + b.len() - i - j,
    {
        if j >= b.len() || (i < a.len() && a[i] <= b[j]) {
            let x = a[i];
            let ghost old_r = r@;
            r.push(x);
            proof {
                old_r.to_multiset_ensures();
                assert(r@ == old_r.push(x));
                let sa = a@.subrange(0, i as int);
                let mb = b@.subrange(0, j as int).to_multiset();
                assert(a@.subrange(0, i + 1) == sa.push(x));
                sa.to_multiset_ensures();
                assert(sa.push(x).to_multiset() =~= sa.to_multiset().insert(x));
                assert(sa.to_multiset().insert(x).add(mb) =~= sa.to_multiset().add(mb).insert(x));
                assert(a@.subrange(0, i + 1).to_multiset().add(b@.subrange(0, j as int).to_multiset())
                    =~= a@.subrange(0, i as int).to_multiset().add(
                    b@.subrange(0, j as int).to_multiset(),
                ).insert(x));
            }
            i = i + 1;
        } else {
            let x = b[j];
            let ghost old_r = r@;
            r.push(x);
            proof {
                old_r.to_multiset_ensures();
                assert(r@ == old_r.push(x));
                let sb = b@.subrange(0, j as int);
                let ma = a@.subrange(0, i as int).to_multiset();
                assert(b@.subrange(0, j + 1) == sb.push(x));
                sb.to_multiset_ensures();
                assert(sb.push(x).to_multiset() =~= sb.to_multiset().insert(x));
                assert(ma.add(sb.to_multiset().insert(x)) =~= ma.add(sb.to_multiset()).insert(x));
                assert(a@.subrange(0, i as int).to_multiset().add(b@.subrange(0, j + 1).to_multiset())
                    =~= a@.subrange(0, i as int).to_multiset().add(
                    b@.subrange(0, j as int).to_multiset(),
                ).insert(x));
            }
            j = j + 1;
        }
    }
    proof {
        assert(a@.subrange(0, a@.len() as int) == a@);
        assert(b@.subrange(0, b@.len() as int) == b@);
    }
    r
}

/// The elements of `v[lo..hi]` in non-decreasing order.
fn sort_range(v: &Vec<u64>, lo: usize, hi: usize) -> (r: Vec<u64>)
    requires
        lo < hi <= v.len(),
    ensures
        sorted(r@),
        r@.to_multiset() == v@.subrange(lo as int, hi as int).to_multiset(),
    decreases hi - lo,
{
    if hi - lo == 1 {
        let mut r: Vec<u64> = Vec::new();
        r.push(v[lo]);
        proof {
            assert(r@ == v@.subrange(lo as int, hi as int));
        }
        return r;
    }
    let mid = lo + (hi - lo) / 2;
    let left = sort_range(v, lo, mid);
    let right = sort_range(v, mid, hi);
    proof {
        let s = v@.subrange(lo as int, hi as int);
        assert(s == v@.subrange(lo as int, mid as int) + v@.subrange(mid as int, hi as int));
        lemma_multiset_commutative(
            v@.subrange(lo as int, mid as int),
            v@.subrange(mid as int, hi as int),
        );
    }
    merge(&left, &right)
}

/// The keys of `v` in non-decreasing order.
pub fn sort_keys(v: &Vec<u64>) -> (r: Vec<u64>)
    ensures
        sorted(r@),
        r@.to_multiset() == v@.to_multiset(),
{
    if v.len() == 0 {
        let r: Vec<u64> = Vec::new();
        assert(r@ == v@);
        return r;
    }
    let r = sort_range(v, 0, v.len());
    proof {
        assert(v@.subrange(0, v@.len() as int) == v@);
    }
    r
}

} // verus!
