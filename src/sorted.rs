//! Sorted vectors of `u64`: sorting, removing repeats, searching and cutting
//! off a prefix in place.

use vstd::prelude::*;
use rayon::slice::ParallelSliceMut;
use crate::primes::strictly_increasing;

verus! {

/// Every element is at most every later one.
pub open spec fn sorted(s: Seq<u64>) -> bool {
    forall|i: int, j: int| 0 <= i < j < s.len() ==> s[i] <= s[j]
}

/// Relies on rayon's `ParallelSliceMut::par_sort_unstable`: reorders the
/// elements into ascending order.
#[verifier::external_body]
pub(crate) fn sort_values(v: &mut Vec<u64>)
    ensures
        sorted(final(v)@),
        final(v)@.to_multiset() == old(v)@.to_multiset(),
{
    v.par_sort_unstable();
}

/// Sorts `v` and removes repeated elements: the result is strictly increasing
/// and holds the same elements.
pub fn sort_distinct(v: &mut Vec<u64>)
    ensures
        strictly_increasing(final(v)@),
        forall|x: u64| final(v)@.contains(x) <==> old(v)@.contains(x),
{
    let ghost before = v@;
    sort_values(v);
    proof {
        broadcast use vstd::seq_lib::group_to_multiset_ensures;

        assert forall|x: u64| v@.contains(x) <==> before.contains(x) by {
            assert(v@.to_multiset().count(x) == before.to_multiset().count(x));
        }
    }
    dedup_sorted(v);
}

/// Removes the repeats of a sorted vector, keeping its first element of each
/// run.
pub fn dedup_sorted(v: &mut Vec<u64>)
    requires
        sorted(old(v)@),
    ensures
        strictly_increasing(final(v)@),
        forall|x: u64| final(v)@.contains(x) <==> old(v)@.contains(x),
{
    let n = v.len();
    if n == 0 {
        return;
    }
    let ghost s = v@;
    // v[0..w] is strictly increasing and holds exactly the elements of s[0..r]
    let mut w: usize = 1;
    let mut r: usize = 1;
    while r < n
        invariant
            s == old(v)@,
            sorted(s),
            n == s.len(),
            v@.len() == n,
            1 <= w <= r <= n,
            strictly_increasing(v@.subrange(0, w as int)),
            v@[w - 1] == s[r - 1],
            forall|i: int| r <= i < n ==> v@[i] == s[i],
            forall|x: u64| #[trigger] v@.subrange(0, w as int).contains(x) ==> s.subrange(0, r as int).contains(x),
            forall|x: u64| #[trigger] s.subrange(0, r as int).contains(x) ==> v@.subrange(0, w as int).contains(x),
        decreases n - r,
    {
        let x = v[r];
        let ghost prev = v@;
        if x != v[w - 1] {
            v.set(w, x);
            proof {
                let nv = v@.subrange(0, (w + 1) as int);
                let ov = prev.subrange(0, w as int);
                let s1 = s.subrange(0, (r + 1) as int);
                let s0 = s.subrange(0, r as int);
                assert(nv == ov.push(x));
                assert(s1 == s0.push(x));
                assert(s[r - 1] <= s[r as int]);
                assert forall|i: int, j: int| 0 <= i < j < w + 1 implies #[trigger] nv[i] < #[trigger] nv[j] by {
                    if j == w {
                        if i < w - 1 {
                            assert(ov[i] < ov[w - 1]);
                        }
                    } else {
                        assert(ov[i] < ov[j]);
                    }
                }
                assert forall|y: u64| nv.contains(y) <==> s1.contains(y) by {
                    if nv.contains(y) {
                        let i = choose|i: int| 0 <= i < nv.len() && nv[i] == y;
                        if i < w {
                            assert(ov[i] == y);
                            assert(ov.contains(y));
                            let j = choose|j: int| 0 <= j < s0.len() && s0[j] == y;
                            assert(s1[j] == y);
                        } else {
                            assert(s1[r as int] == y);
                        }
                    }
                    if s1.contains(y) {
                        let j = choose|j: int| 0 <= j < s1.len() && s1[j] == y;
                        if j < r {
                            assert(s0[j] == y);
                            assert(s0.contains(y));
                            let i = choose|i: int| 0 <= i < ov.len() && ov[i] == y;
                            assert(nv[i] == y);
                        } else {
                            assert(nv[w as int] == y);
                        }
                    }
                }
            }
            w = w + 1;
        } else {
            proof {
                let nv = v@.subrange(0, w as int);
                let s1 = s.subrange(0, (r + 1) as int);
                let s0 = s.subrange(0, r as int);
                assert(s1 == s0.push(x));
                assert forall|y: u64| nv.contains(y) <==> s1.contains(y) by {
                    if s1.contains(y) {
                        let j = choose|j: int| 0 <= j < s1.len() && s1[j] == y;
                        if j < r {
                            assert(s0[j] == y);
                            assert(s0.contains(y));
                        } else {
                            assert(nv[w - 1] == y);
                        }
                    }
                    if nv.contains(y) {
                        let j = choose|j: int| 0 <= j < s0.len() && s0[j] == y;
                        assert(s1[j] == y);
                    }
                }
            }
        }
        r = r + 1;
    }
    v.truncate(w);
    proof {
        assert(v@ == v@.subrange(0, w as int));
        assert(s.subrange(0, n as int) == s);
    }
}

/// The number of elements at most `b` in a sorted vector: the index of the
/// first element above `b`.
pub fn count_at_most(s: &Vec<u64>, b: u64) -> (r: usize)
    requires
        sorted(s@),
    ensures
        r <= s@.len(),
        forall|i: int| 0 <= i < r ==> #[trigger] s@[i] <= b,
        forall|i: int| r <= i < s@.len() ==> #[trigger] s@[i] > b,
{
    let mut lo: usize = 0;
    let mut hi: usize = s.len();
    while lo < hi
        invariant
            sorted(s@),
            lo <= hi <= s@.len(),
            forall|i: int| 0 <= i < lo ==> #[trigger] s@[i] <= b,
            forall|i: int| hi <= i < s@.len() ==> #[trigger] s@[i] > b,
        decreases hi - lo,
    {
        let mid = lo + (hi - lo) / 2;
        if s[mid] <= b {
            lo = mid + 1;
        } else {
            hi = mid;
        }
    }
    lo
}

/// Removes the first `k` elements in place, moving the rest to the front.
pub fn drop_prefix(v: &mut Vec<u64>, k: usize)
    requires
        k <= old(v)@.len(),
    ensures
        final(v)@ == old(v)@.subrange(k as int, old(v)@.len() as int),
{
    let n = v.len();
    let ghost s = v@;
    let mut i: usize = 0;
    while i + k < n
        invariant
            s == old(v)@,
            n == s.len(),
            k <= n,
            v@.len() == n,
            i + k <= n,
            forall|j: int| 0 <= j < i ==> v@[j] == s[j + k],
            forall|j: int| i + k <= j < n ==> v@[j] == s[j],
        decreases n - i,
    {
        let x = v[i + k];
        v.set(i, x);
        i = i + 1;
    }
    v.truncate(n - k);
    proof {
        assert(v@ =~= s.subrange(k as int, n as int));
    }
}

} // verus!
