//! The sorted set of smooth numbers inside a window `(lower_bound, upper_bound]`.

use vstd::prelude::*;
use crate::primes::{PrimeTable, strictly_increasing};
use crate::composite::{
    lemma_digits_small, lemma_div_lt, lemma_prod_pos, lemma_prod_split, lemma_prod_update,
    lemma_prod_zeros, lemma_table_primes, primes_at_least_two, prod, pw, zeros,
};
use crate::generate::{smooths_with_top, with_top};
use crate::sorted::{count_at_most, drop_prefix, sort_distinct};
use crate::factor::lemma_prime_divides_prod;
use crate::gaps::{deterministic, find_gap, first_gap_in};

verus! {

/// `x` is the number of an exponent vector over the first `a` primes of `ps`.
pub open spec fn smooth_over(ps: Seq<u64>, x: int, a: int) -> bool {
    exists|v: Seq<u32>| v.len() <= a && #[trigger] prod(ps, v) == x
}

/// Appending zero exponents leaves the number unchanged.
pub proof fn lemma_prod_pad(ps: Seq<u64>, v: Seq<u32>, n: nat)
    requires
        v.len() <= n,
    ensures
        prod(ps, v + Seq::new((n - v.len()) as nat, |t: int| 0u32)) == prod(ps, v),
    decreases n - v.len(),
{
    let w = v + Seq::new((n - v.len()) as nat, |t: int| 0u32);
    if v.len() < n {
        let w1 = v + Seq::new((n - 1 - v.len()) as nat, |t: int| 0u32);
        lemma_prod_pad(ps, v, (n - 1) as nat);
        assert(w.drop_last() =~= w1);
        assert(w.last() == 0);
        assert(pw(ps[n - 1] as int, 0) == 1);
    } else {
        assert(w =~= v);
    }
}

/// A number that uses at most the first `a + 1` primes either uses at most
/// the first `a`, or has `ps[a]` as its largest prime.
pub proof fn lemma_split_by_top(ps: Seq<u64>, v: Seq<u32>, a: int)
    requires
        0 <= a,
        v.len() <= a + 1,
    ensures
        smooth_over(ps, prod(ps, v), a) || (v.len() == a + 1 && v[a] >= 1),
{
    if v.len() == a + 1 && v[a] == 0 {
        assert(pw(ps[a] as int, 0) == 1);
        assert(prod(ps, v.drop_last()) == prod(ps, v));
    }
}

/// `n` is scanned for the prime at index `i` when the window grows from
/// `upper` to `new_upper`: `n * ps[i]` falls in `(upper, new_upper]`, and no
/// admitted prime above `ps[i]` divides `n`.
pub open spec fn candidate(ps: Seq<u64>, a: int, upper: int, new_upper: int, n: int, i: int) -> bool {
    &&& upper / (ps[i] as int) < n <= new_upper / (ps[i] as int)
    &&& forall|l: int| i < l < a ==> #[trigger] (n % (ps[l] as int)) != 0
}

/// Multiplying a smooth number by an admitted prime keeps it smooth.
pub proof fn lemma_times_prime(ps: Seq<u64>, n: int, a: int, i: int)
    requires
        primes_at_least_two(ps),
        smooth_over(ps, n, a),
        0 <= i < a <= ps.len(),
        n * ps[i] <= u64::MAX,
    ensures
        smooth_over(ps, n * ps[i], a),
{
    let v = choose|v: Seq<u32>| v.len() <= a && #[trigger] prod(ps, v) == n;
    let w = v + Seq::new((a - v.len()) as nat, |t: int| 0u32);
    lemma_prod_pad(ps, v, a as nat);
    lemma_prod_pos(ps, w);
    let p = ps[i] as int;
    assert(n * p >= n) by (nonlinear_arith)
        requires
            n >= 1,
            p >= 2,
    ;
    lemma_digits_small(ps, w);
    assert(w[i] < 64);
    let e = (w[i] + 1) as u32;
    lemma_prod_split(ps, w, i);
    lemma_prod_update(ps, w, i, e);
    assert(pw(p, e as nat) == p * pw(p, w[i] as nat));
    let r = prod(ps, w.update(i, 0));
    let q = pw(p, w[i] as nat);
    assert(r * (p * q) == (r * q) * p) by (nonlinear_arith);
    assert(prod(ps, w.update(i, e)) == n * p);
}

/// The highest index with a positive exponent, in a vector whose number is
/// above 1.
pub proof fn lemma_highest_nonzero(ps: Seq<u64>, v: Seq<u32>) -> (m: int)
    requires
        prod(ps, v) > 1,
    ensures
        0 <= m < v.len(),
        v[m] >= 1,
        forall|l: int| m < l < v.len() ==> #[trigger] v[l] == 0,
    decreases v.len(),
{
    if v.len() == 0 {
        0
    } else if v.last() >= 1 {
        (v.len() - 1) as int
    } else {
        assert(pw(ps[v.len() - 1] as int, 0) == 1);
        let m = lemma_highest_nonzero(ps, v.drop_last());
        assert(v.drop_last()[m] == v[m]);
        assert forall|l: int| m < l < v.len() implies #[trigger] v[l] == 0 by {
            if l < v.len() - 1 {
                assert(v.drop_last()[l] == v[l]);
            }
        }
        m
    }
}

/// Each smooth number that the window gains when it grows is a held number
/// times an admitted prime, scanned for that prime.
pub proof fn lemma_advance_reaches(
    t: &PrimeTable,
    vals: Seq<u64>,
    a: int,
    lower: int,
    upper: int,
    new_upper: int,
    v: Seq<u32>,
) -> (r: (int, int))
    requires
        t.wf(),
        1 <= a <= t@.len(),
        1 <= upper < new_upper <= 2 * upper,
        new_upper <= u64::MAX,
        lower <= upper / (t@[a - 1] as int),
        forall|w: Seq<u32>|
            w.len() <= a && lower < #[trigger] prod(t@, w) <= upper ==> vals.contains(prod(t@, w) as u64),
        v.len() <= a,
        upper < prod(t@, v) <= new_upper,
    ensures
        0 <= r.0 < vals.len(),
        0 <= r.1 < a,
        candidate(t@, a, upper, new_upper, vals[r.0] as int, r.1),
        vals[r.0] * t@[r.1] == prod(t@, v),
{
    let ps = t@;
    lemma_table_primes(t);
    let m = lemma_highest_nonzero(ps, v);
    let p = ps[m] as int;
    let w = v.update(m, (v[m] - 1) as u32);
    let n = prod(ps, w);
    lemma_prod_split(ps, v, m);
    lemma_prod_update(ps, v, m, (v[m] - 1) as u32);
    assert(pw(p, v[m] as nat) == p * pw(p, (v[m] - 1) as nat));
    let r0 = prod(ps, v.update(m, 0));
    let q = pw(p, (v[m] - 1) as nat);
    assert(r0 * (p * q) == (r0 * q) * p) by (nonlinear_arith);
    assert(n * p == prod(ps, v));
    lemma_prod_pos(ps, w);
    lemma_div_lt(new_upper, p, n);
    lemma_div_lt(upper, p, n);
    assert(n <= upper) by (nonlinear_arith)
        requires
            n * p <= new_upper,
            new_upper <= 2 * upper,
            p >= 2,
            n >= 1,
    ;
    assert(ps[m] <= ps[a - 1]) by {
        if m < a - 1 {
            assert(ps[m] < ps[a - 1]);
        }
    }
    vstd::arithmetic::div_mod::lemma_div_is_ordered_by_denominator(upper, p, ps[a - 1] as int);
    assert(vals.contains(n as u64));
    let idx = choose|idx: int| 0 <= idx < vals.len() && vals[idx] == n as u64;
    assert(vals[idx] as int == n);
    assert forall|l: int| m < l < a implies #[trigger] (n % (ps[l] as int)) != 0 by {
        if n % (ps[l] as int) == 0 {
            lemma_prime_divides_prod(t, w, l);
            assert(v[l] == 0);
        }
    }
    (idx, m)
}

/// Placing a strictly increasing sequence after another whose elements are
/// all smaller keeps it strictly increasing.
pub proof fn lemma_concat_increasing(a: Seq<u64>, b: Seq<u64>, mid: u64)
    requires
        strictly_increasing(a),
        strictly_increasing(b),
        forall|i: int| 0 <= i < a.len() ==> #[trigger] a[i] <= mid,
        forall|i: int| 0 <= i < b.len() ==> #[trigger] b[i] > mid,
    ensures
        strictly_increasing(a + b),
{
    assert forall|i: int, j: int| 0 <= i < j < (a + b).len() implies (a + b)[i] < (a + b)[j] by {
        if j < a.len() {
        } else if i >= a.len() {
            assert((a + b)[i] == b[i - a.len()]);
            assert((a + b)[j] == b[j - a.len()]);
        } else {
            assert(a[i] <= mid);
            assert(b[j - a.len()] > mid);
        }
    }
}

/// The largest index below `a` whose prime divides `n`, or `None` when none
/// of the first `a` primes does.
pub fn top_prime_index(t: &PrimeTable, a: usize, n: u64) -> (r: Option<usize>)
    requires
        t.wf(),
        a <= t@.len(),
    ensures
        r is None ==> forall|l: int| 0 <= l < a ==> #[trigger] (n as int % (t@[l] as int)) != 0,
        r matches Some(j) ==> j < a && n as int % (t@[j as int] as int) == 0 && forall|l: int|
            j < l < a ==> #[trigger] (n as int % (t@[l] as int)) != 0,
{
    proof {
        lemma_table_primes(t);
    }
    let mut j: usize = a;
    while j > 0
        invariant
            t.wf(),
            primes_at_least_two(t@),
            a <= t@.len(),
            j <= a,
            forall|l: int| j <= l < a ==> #[trigger] (n as int % (t@[l] as int)) != 0,
        decreases j,
    {
        let p = t.primes[j - 1];
        if n % p == 0 {
            return Some(j - 1);
        }
        j = j - 1;
    }
    None
}

/// The next upper end of the window when it grows towards `n`: half as much
/// again, but not past `n`.
pub fn next_upper_bound(upper: u64, n: u64) -> (r: u64)
    ensures
        r == if upper + upper / 2 < n { upper + upper / 2 } else { n as int },
{
    let half = upper / 2;
    if n < half || n - half <= upper {
        n
    } else {
        upper + half
    }
}

/// The upper end that the window grows to from `upper` towards `n`.
pub open spec fn grown(upper: int, n: int) -> int {
    if upper + upper / 2 >= n {
        n
    } else if upper / 2 == 0 {
        upper + 1
    } else {
        upper + upper / 2
    }
}

/// The window, the number of admitted primes, and the sorted smooth numbers.
pub struct Smooths {
    pub lower_bound: u64,
    pub upper_bound: u64,
    pub pp_ind: usize,
    pub smooths: Vec<u64>,
}

impl View for Smooths {
    type V = Seq<u64>;

    open spec fn view(&self) -> Seq<u64> {
        self.smooths@
    }
}

impl Smooths {
    /// The numbers are strictly increasing, lie in the window, and are smooth
    /// over the admitted primes.
    pub open spec fn wf(&self, t: &PrimeTable) -> bool {
        &&& t.wf()
        &&& self.pp_ind <= t@.len()
        &&& strictly_increasing(self@)
        &&& forall|i: int|
            0 <= i < self@.len() ==> self.lower_bound < #[trigger] self@[i] <= self.upper_bound
                && smooth_over(t@, self@[i] as int, self.pp_ind as int)
    }

    /// Every smooth number of the window is held.
    pub open spec fn complete(&self, t: &PrimeTable) -> bool {
        forall|v: Seq<u32>|
            v.len() <= self.pp_ind && self.lower_bound < #[trigger] prod(t@, v) <= self.upper_bound
                ==> self@.contains(prod(t@, v) as u64)
    }

    /// The smooth numbers over the first prime in `(1, bound]`.
    pub fn new(t: &PrimeTable, bound: u64) -> (s: Smooths)
        requires
            t.wf(),
            t@.len() >= 1,
        ensures
            s.wf(t),
            s.complete(t),
            s.lower_bound == 1,
            s.upper_bound == bound,
            s.pp_ind == 1,
    {
        let mut s = Smooths { lower_bound: 1, upper_bound: bound, pp_ind: 0, smooths: Vec::new() };
        proof {
            assert forall|v: Seq<u32>|
                v.len() <= s.pp_ind && s.lower_bound < #[trigger] prod(t@, v) <= s.upper_bound
                    implies s@.contains(prod(t@, v) as u64) by {
                assert(v =~= Seq::<u32>::empty());
            }
        }
        s.add_prime_power(t, 1);
        s
    }

    /// The number of smooth numbers held.
    pub fn len(&self) -> (r: usize)
        ensures
            r == self@.len(),
    {
        self.smooths.len()
    }

    /// The smooth number at index `ind`.
    pub fn get(&self, ind: usize) -> (r: u64)
        requires
            ind < self@.len(),
        ensures
            r == self@[ind as int],
    {
        self.smooths[ind]
    }

    /// The number of admitted primes.
    pub fn ind(&self) -> (r: usize)
        ensures
            r == self.pp_ind,
    {
        self.pp_ind
    }

    /// A copy of the smooth numbers, in increasing order.
    pub fn values(&self) -> (r: Vec<u64>)
        ensures
            r@ == self@,
    {
        self.smooths.clone()
    }

    /// Admits the next prime `P[pp_ind]` and raises the lower end of the
    /// window to `new_lower_bound`: numbers at or below it are dropped, and
    /// every number of the window whose largest prime is the new one is added.
    pub fn add_prime_power(&mut self, t: &PrimeTable, new_lower_bound: u64)
        requires
            old(self).wf(t),
            old(self).pp_ind < t@.len(),
            old(self).lower_bound <= new_lower_bound,
        ensures
            final(self).wf(t),
            final(self).lower_bound == new_lower_bound,
            final(self).upper_bound == old(self).upper_bound,
            final(self).pp_ind == old(self).pp_ind + 1,
            forall|x: u64|
                final(self)@.contains(x) <==> new_lower_bound < x <= old(self).upper_bound && (old(
                    self,
                )@.contains(x) || with_top(t@, x as int, old(self).pp_ind as int)),
            old(self).complete(t) ==> final(self).complete(t),
    {
        let k = self.pp_ind;
        let n_primes = t.len();
        assert(k + 1 <= n_primes);
        let upper = self.upper_bound;
        let ghost before = self@;
        let ghost ps = t@;
        let cut = count_at_most(&self.smooths, new_lower_bound);
        drop_prefix(&mut self.smooths, cut);
        let ghost kept = self.smooths@;
        let mut fresh = smooths_with_top(t, new_lower_bound, upper, k);
        let ghost fr = fresh@;
        self.smooths.append(&mut fresh);
        let ghost joined = self.smooths@;
        sort_distinct(&mut self.smooths);
        self.lower_bound = new_lower_bound;
        self.pp_ind = k + 1;
        proof {
            assert(joined == kept + fr);
            assert forall|x: u64| joined.contains(x) <==> new_lower_bound < x <= upper && (
            before.contains(x) || with_top(ps, x as int, k as int)) by {
                if joined.contains(x) {
                    let i = choose|i: int| 0 <= i < joined.len() && joined[i] == x;
                    if i < kept.len() {
                        assert(kept[i] == before[i + cut]);
                    } else {
                        assert(fr[i - kept.len()] == x);
                    }
                }
                if new_lower_bound < x <= upper && before.contains(x) {
                    let i = choose|i: int| 0 <= i < before.len() && before[i] == x;
                    assert(i >= cut);
                    assert(joined[i - cut] == x);
                }
                if new_lower_bound < x <= upper && with_top(ps, x as int, k as int) {
                    let v = choose|v: Seq<u32>| v.len() == k + 1 && v[k as int] >= 1 && #[trigger] prod(ps, v) == x;
                    assert(fr.contains(prod(ps, v) as u64));
                    let i = choose|i: int| 0 <= i < fr.len() && fr[i] == x;
                    assert(joined[kept.len() + i] == x);
                }
            }
            assert forall|i: int| 0 <= i < self@.len() implies self.lower_bound < #[trigger] self@[i]
                <= self.upper_bound && smooth_over(ps, self@[i] as int, self.pp_ind as int) by {
                let x = self@[i];
                assert(self@.contains(x));
                if before.contains(x) {
                    let j = choose|j: int| 0 <= j < before.len() && before[j] == x;
                    assert(smooth_over(ps, before[j] as int, k as int));
                    let v = choose|v: Seq<u32>| v.len() <= k && #[trigger] prod(ps, v) == x;
                } else {
                    let v = choose|v: Seq<u32>| v.len() == k + 1 && v[k as int] >= 1 && #[trigger] prod(ps, v) == x;
                }
            }
            assert forall|x: u64| self@.contains(x) <==> new_lower_bound < x <= upper && (
            before.contains(x) || with_top(ps, x as int, k as int)) by {
                assert(self@.contains(x) <==> joined.contains(x));
            }
            if old(self).complete(t) {
                assert forall|v: Seq<u32>|
                    v.len() <= self.pp_ind && self.lower_bound < #[trigger] prod(ps, v) <= self.upper_bound
                        implies self@.contains(prod(ps, v) as u64) by {
                    lemma_split_by_top(ps, v, k as int);
                    let x = prod(ps, v) as u64;
                    if v.len() == k + 1 && v[k as int] >= 1 {
                        assert(with_top(ps, x as int, k as int));
                    } else {
                        let w = choose|w: Seq<u32>| w.len() <= k && #[trigger] prod(ps, w) == prod(ps, v);
                        assert(old(self).lower_bound < prod(ps, w));
                        assert(before.contains(prod(ps, w) as u64));
                    }
                }
            }
        }
    }

    /// Admits primes one at a time until `P[index]` is admitted.
    pub fn admit_primes_through(&mut self, t: &PrimeTable, index: usize)
        requires
            old(self).wf(t),
            index < t@.len(),
        ensures
            final(self).wf(t),
            final(self).lower_bound == old(self).lower_bound,
            final(self).upper_bound == old(self).upper_bound,
            final(self).pp_ind == if old(self).pp_ind > index { old(self).pp_ind as int } else { index + 1 },
            forall|x: u64|
                final(self)@.contains(x) <==> old(self)@.contains(x) || (old(self).lower_bound < x
                    <= old(self).upper_bound && exists|k: int|
                    old(self).pp_ind <= k < final(self).pp_ind && #[trigger] with_top(t@, x as int, k)),
            old(self).complete(t) ==> final(self).complete(t),
    {
        let ghost was_complete = self.complete(t);
        let ghost first = self.pp_ind as int;
        while self.pp_ind <= index
            invariant
                self.wf(t),
                index < t@.len(),
                self.lower_bound == old(self).lower_bound,
                self.upper_bound == old(self).upper_bound,
                first == old(self).pp_ind,
                old(self).pp_ind <= self.pp_ind,
                old(self).pp_ind <= index ==> self.pp_ind <= index + 1,
                old(self).pp_ind > index ==> self.pp_ind == old(self).pp_ind,
                was_complete == old(self).complete(t),
                was_complete ==> self.complete(t),
                forall|x: u64|
                    self@.contains(x) <==> old(self)@.contains(x) || (old(self).lower_bound < x
                        <= old(self).upper_bound && exists|k: int|
                        first <= k < self.pp_ind && #[trigger] with_top(t@, x as int, k)),
            decreases t@.len() - self.pp_ind,
        {
            let lower = self.lower_bound;
            let ghost before = self@;
            let ghost k0 = self.pp_ind as int;
            self.add_prime_power(t, lower);
            proof {
                assert forall|x: u64|
                    self@.contains(x) <==> old(self)@.contains(x) || (old(self).lower_bound < x
                        <= old(self).upper_bound && exists|k: int|
                        first <= k < self.pp_ind && #[trigger] with_top(t@, x as int, k)) by {
                    if before.contains(x) {
                        let i = choose|i: int| 0 <= i < before.len() && before[i] == x;
                    }
                    if old(self).lower_bound < x <= old(self).upper_bound && exists|k: int|
                        first <= k < self.pp_ind && #[trigger] with_top(t@, x as int, k) {
                        let k = choose|k: int| first <= k < self.pp_ind && #[trigger] with_top(t@, x as int, k);
                        if k < k0 {
                            assert(before.contains(x));
                        }
                    }
                    if self@.contains(x) && !before.contains(x) {
                        assert(with_top(t@, x as int, k0));
                    }
                }
            }
        }
    }

    /// Widens the admitted primes through `new_index` to close a gap, when
    /// that admits at least one more prime; false, with nothing changed, when
    /// `P[new_index]` is already admitted.
    pub fn close_gap(&mut self, t: &PrimeTable, new_index: usize) -> (r: bool)
        requires
            old(self).wf(t),
            new_index < t@.len(),
        ensures
            r == (new_index >= old(self).pp_ind),
            !r ==> *final(self) == *old(self),
            r ==> final(self).pp_ind == new_index + 1,
            final(self).wf(t),
            final(self).lower_bound == old(self).lower_bound,
            final(self).upper_bound == old(self).upper_bound,
            forall|x: u64|
                final(self)@.contains(x) <==> old(self)@.contains(x) || (old(self).lower_bound < x
                    <= old(self).upper_bound && exists|k: int|
                    old(self).pp_ind <= k < final(self).pp_ind && #[trigger] with_top(t@, x as int, k)),
            old(self).complete(t) ==> final(self).complete(t),
    {
        if new_index < self.pp_ind {
            return false;
        }
        self.admit_primes_through(t, new_index);
        true
    }

    /// Moves the upper end of the window to `new_upper_bound`: every held
    /// number `n` times an admitted prime `p` with `n * p` newly in the window
    /// is added, where no admitted prime above `p` divides `n`; the lower end
    /// rises to `new_upper_bound / P[pp_ind + 2]` if that is higher, and the
    /// numbers at or below it are dropped. The new smooth numbers are all
    /// found when the window reaches down to `upper_bound / P[pp_ind - 1]`.
    pub fn advance(&mut self, t: &PrimeTable, new_upper_bound: u64)
        requires
            old(self).wf(t),
            old(self).upper_bound < new_upper_bound <= 2 * old(self).upper_bound,
            old(self).pp_ind + 2 < t@.len(),
        ensures
            final(self).wf(t),
            final(self).upper_bound == new_upper_bound,
            final(self).pp_ind == old(self).pp_ind,
            final(self).lower_bound == if old(self).lower_bound >= new_upper_bound / t@[old(
                self,
            ).pp_ind + 2] {
                old(self).lower_bound
            } else {
                new_upper_bound / t@[old(self).pp_ind + 2]
            },
            old(self).complete(t) && (old(self).pp_ind == 0 || old(self).lower_bound <= old(
                self,
            ).upper_bound / t@[old(self).pp_ind - 1]) ==> final(self).complete(t),
            old(self).pp_ind >= 1 && old(self).lower_bound <= old(self).upper_bound / t@[old(
                self,
            ).pp_ind - 1] ==> final(self).lower_bound <= new_upper_bound / t@[old(self).pp_ind - 1],
    {
        let a = self.pp_ind;
        let n_primes = t.len();
        assert(a + 2 < n_primes);
        let upper = self.upper_bound;
        let ghost ps = t@;
        let ghost vals = self@;
        let ghost au = upper as int;
        let ghost anu = new_upper_bound as int;
        proof {
            lemma_table_primes(t);
        }
        let mut fresh: Vec<u64> = Vec::new();
        let mut i: usize = 0;
        while i < a
            invariant
                self.wf(t),
                self@ == vals,
                self.pp_ind == a,
                self.upper_bound == upper,
                ps == t@,
                au == upper as int,
                anu == new_upper_bound as int,
                primes_at_least_two(ps),
                a + 2 < ps.len(),
                i <= a,
                upper < new_upper_bound,
                forall|k: int| 0 <= k < fresh@.len() ==> upper < #[trigger] fresh@[k] <= new_upper_bound
                    && smooth_over(ps, fresh@[k] as int, a as int),
                forall|i2: int, idx: int|
                    0 <= i2 < i && 0 <= idx < vals.len() && #[trigger] candidate(
                        ps,
                        a as int,
                        au,
                        anu,
                        vals[idx] as int,
                        i2,
                    ) ==> fresh@.contains((vals[idx] * ps[i2]) as u64),
            decreases a - i,
        {
            let p = t.primes[i];
            let lo = upper / p;
            let hi = new_upper_bound / p;
            let start = count_at_most(&self.smooths, lo);
            let mut idx = start;
            while idx < self.smooths.len() && self.smooths[idx] <= hi
                invariant
                    self.wf(t),
                    self@ == vals,
                    ps == t@,
                    au == upper as int,
                    anu == new_upper_bound as int,
                    upper < new_upper_bound,
                    self.pp_ind == a,
                    self.upper_bound == upper,
                    primes_at_least_two(ps),
                    a + 2 < ps.len(),
                    i < a,
                    p == ps[i as int],
                    lo == upper / p,
                    hi == new_upper_bound / p,
                    start <= idx <= vals.len(),
                    forall|k: int| 0 <= k < start ==> #[trigger] vals[k] <= lo,
                    forall|k: int| start <= k < vals.len() ==> #[trigger] vals[k] > lo,
                    forall|k: int| 0 <= k < fresh@.len() ==> upper < #[trigger] fresh@[k] <= new_upper_bound
                        && smooth_over(ps, fresh@[k] as int, a as int),
                    forall|i2: int, k: int|
                        0 <= i2 < i && 0 <= k < vals.len() && #[trigger] candidate(
                            ps,
                            a as int,
                            au,
                            anu,
                            vals[k] as int,
                            i2,
                        ) ==> fresh@.contains((vals[k] * ps[i2]) as u64),
                    forall|k: int|
                        0 <= k < idx && #[trigger] candidate(ps, a as int, au, anu, vals[k] as int, i as int)
                            ==> fresh@.contains((vals[k] * ps[i as int]) as u64),
                decreases vals.len() - idx,
            {
                let n = self.smooths[idx];
                let top = top_prime_index(t, a, n);
                let take = match top {
                    None => true,
                    Some(j) => j <= i,
                };
                proof {
                    lemma_div_lt(upper as int, p as int, n as int);
                    lemma_div_lt(new_upper_bound as int, p as int, n as int);
                }
                proof {
                    assert(n == vals[idx as int]);
                    assert(smooth_over(ps, vals[idx as int] as int, a as int));
                    assert(n > lo);
                }
                if take {
                    let ghost before = fresh@;
                    proof {
                        lemma_times_prime(ps, n as int, a as int, i as int);
                    }
                    let np = n * p;
                    fresh.push(np);
                    proof {
                        assert(fresh@ == before.push(np));
                        assert forall|x: u64| before.contains(x) implies fresh@.contains(x) by {
                            let u = choose|u: int| 0 <= u < before.len() && before[u] == x;
                            assert(fresh@[u] == x);
                        }
                        assert(fresh@[before.len() as int] == np);
                    }
                } else {
                    proof {
                        let j = top->Some_0;
                        assert(!candidate(ps, a as int, au, anu, n as int, i as int)) by {
                            assert(n as int % (ps[j as int] as int) == 0);
                        }
                    }
                }
                idx = idx + 1;
            }
            proof {
                assert forall|k: int|
                    0 <= k < vals.len() && #[trigger] candidate(ps, a as int, au, anu, vals[k] as int, i as int)
                        implies fresh@.contains((vals[k] * ps[i as int]) as u64) by {
                    if k >= idx {
                        if idx < vals.len() {
                            assert(vals[idx as int] <= vals[k]);
                        }
                    }
                }
            }
            i = i + 1;
        }
        let ghost unsorted = fresh@;
        sort_distinct(&mut fresh);
        let f = t.primes[a + 2];
        let cut = new_upper_bound / f;
        let new_lower = if self.lower_bound >= cut { self.lower_bound } else { cut };
        let drop_old = count_at_most(&self.smooths, new_lower);
        drop_prefix(&mut self.smooths, drop_old);
        let ghost kept = self@;
        let ghost sorted_fresh = fresh@;
        let drop_new = count_at_most(&fresh, new_lower);
        drop_prefix(&mut fresh, drop_new);
        let ghost kept_fresh = fresh@;
        self.smooths.append(&mut fresh);
        let ghost was_lower = self.lower_bound;
        self.lower_bound = new_lower;
        self.upper_bound = new_upper_bound;
        proof {
            assert(self@ == kept + kept_fresh);
            assert forall|k: int| 0 <= k < kept.len() implies #[trigger] kept[k] <= upper by {
                assert(kept[k] == vals[k + drop_old]);
            }
            assert forall|k: int| 0 <= k < kept_fresh.len() implies #[trigger] kept_fresh[k] > upper by {
                assert(kept_fresh[k] == sorted_fresh[k + drop_new]);
                assert(unsorted.contains(sorted_fresh[k + drop_new]));
            }
            assert(strictly_increasing(kept)) by {
                assert forall|x: int, y: int| 0 <= x < y < kept.len() implies kept[x] < kept[y] by {
                    assert(kept[x] == vals[x + drop_old]);
                    assert(kept[y] == vals[y + drop_old]);
                }
            }
            assert(strictly_increasing(kept_fresh)) by {
                assert forall|x: int, y: int| 0 <= x < y < kept_fresh.len() implies kept_fresh[x] < kept_fresh[y] by {
                    assert(kept_fresh[x] == sorted_fresh[x + drop_new]);
                    assert(kept_fresh[y] == sorted_fresh[y + drop_new]);
                }
            }
            lemma_concat_increasing(kept, kept_fresh, upper);
            assert forall|k: int| 0 <= k < self@.len() implies self.lower_bound < #[trigger] self@[k]
                <= self.upper_bound && smooth_over(ps, self@[k] as int, self.pp_ind as int) by {
                if k < kept.len() {
                    assert(kept[k] == vals[k + drop_old]);
                } else {
                    let x = kept_fresh[k - kept.len()];
                    assert(x == sorted_fresh[k - kept.len() + drop_new]);
                    assert(sorted_fresh.contains(x));
                    let u = choose|u: int| 0 <= u < unsorted.len() && unsorted[u] == x;
                }
            }
            if a >= 1 && was_lower <= upper / t@[a - 1] {
                let q = t@[a - 1] as int;
                assert(q <= f) by {
                    assert(t@[a - 1] < t@[a + 2]);
                }
                vstd::arithmetic::div_mod::lemma_div_is_ordered(upper as int, new_upper_bound as int, q);
                vstd::arithmetic::div_mod::lemma_div_is_ordered_by_denominator(new_upper_bound as int, q, f as int);
            }
            if old(self).complete(t) && (a == 0 || was_lower <= upper / t@[a - 1]) {
                assert forall|v: Seq<u32>|
                    v.len() <= self.pp_ind && self.lower_bound < #[trigger] prod(ps, v) <= self.upper_bound
                        implies self@.contains(prod(ps, v) as u64) by {
                    let y = prod(ps, v);
                    if y <= upper {
                        assert(vals.contains(y as u64));
                        let k = choose|k: int| 0 <= k < vals.len() && vals[k] == y as u64;
                        assert(k >= drop_old);
                        assert(self@[k - drop_old] == y);
                    } else {
                        if a == 0 {
                            assert(v =~= zeros(0));
                            lemma_prod_zeros(ps, 0);
                        }
                        let r = lemma_advance_reaches(t, vals, a as int, was_lower as int, au, anu, v);
                        assert(unsorted.contains(y as u64));
                        assert(sorted_fresh.contains(y as u64));
                        let k = choose|k: int| 0 <= k < sorted_fresh.len() && sorted_fresh[k] == y as u64;
                        assert(k >= drop_new);
                        assert(self@[kept.len() + k - drop_new] == y);
                    }
                }
            }
        }
    }

    /// Grows the window towards `n`, by half its upper end or by one when
    /// that half is 0, but never past `n`; false, with nothing changed, when
    /// the window already reaches `n` or its upper end is 0.
    pub fn widen(&mut self, t: &PrimeTable, n: u64) -> (r: bool)
        requires
            old(self).wf(t),
            old(self).pp_ind + 2 < t@.len(),
        ensures
            r == (1 <= old(self).upper_bound < n),
            !r ==> *final(self) == *old(self),
            r ==> final(self).upper_bound == grown(old(self).upper_bound as int, n as int),
            final(self).wf(t),
            final(self).pp_ind == old(self).pp_ind,
            r && old(self).complete(t) && (old(self).pp_ind == 0 || old(self).lower_bound <= old(
                self,
            ).upper_bound / t@[old(self).pp_ind - 1]) ==> final(self).complete(t),
            old(self).pp_ind >= 1 && old(self).lower_bound <= old(self).upper_bound / t@[old(
                self,
            ).pp_ind - 1] ==> final(self).lower_bound <= final(self).upper_bound / t@[old(self).pp_ind - 1],
    {
        let upper = self.upper_bound;
        if upper == 0 || upper >= n {
            return false;
        }
        let mut next = next_upper_bound(upper, n);
        if next <= upper {
            next = upper + 1;
        }
        self.advance(t, next);
        true
    }

    /// The smallest index `x >= cur` where the numbers at `x` and `x + 1`
    /// leave a gap for the half-width `width`.
    pub fn first_gap<F: Fn(u64) -> u64>(&self, cur: usize, width: &F) -> (r: Option<usize>)
        requires
            deterministic(*width),
            cur < self@.len(),
        ensures
            first_gap_in(*width, self@, cur as int, self@.len() - 1, r),
    {
        find_gap(&self.smooths, cur, self.smooths.len() - 1, width)
    }

    /// The largest index whose number is at most `b`.
    pub fn find_ind_le(&self, b: u64) -> (r: Option<usize>)
        requires
            strictly_increasing(self@),
        ensures
            r is None <==> (self@.len() == 0 || self@[0] > b),
            r matches Some(i) ==> i < self@.len() && self@[i as int] <= b && (i + 1 == self@.len()
                || self@[i + 1] > b),
    {
        let c = count_at_most(&self.smooths, b);
        if c == 0 {
            None
        } else {
            Some(c - 1)
        }
    }

    /// The smallest index whose number is above `b`.
    pub fn find_ind_gt(&self, b: u64) -> (r: Option<usize>)
        requires
            strictly_increasing(self@),
        ensures
            r is None <==> (self@.len() == 0 || self@[self@.len() - 1] <= b),
            r matches Some(i) ==> i < self@.len() && self@[i as int] > b && (i == 0 || self@[i
                - 1] <= b),
    {
        let c = count_at_most(&self.smooths, b);
        if c == self.smooths.len() {
            None
        } else {
            Some(c)
        }
    }
}

} // verus!
