//! The prime table: an immutable, strictly increasing list of primes.

use vstd::prelude::*;

verus! {

/// `n` is a prime number.
pub open spec fn is_prime(n: int) -> bool {
    &&& n >= 2
    &&& forall|d: int| 2 <= d < n ==> #[trigger] (n % d) != 0
}

/// Every element of `s` is smaller than every later one.
pub open spec fn strictly_increasing(s: Seq<u64>) -> bool {
    forall|i: int, j: int| 0 <= i < j < s.len() ==> s[i] < s[j]
}

/// Relies on primal's `Sieve::new(limit).primes_from(0)`: every prime up to the
/// sieve's upper end, which is at least `limit`, in increasing order.
#[verifier::external_body]
fn sieve_primes(limit: usize) -> (r: Vec<u64>)
    ensures
        strictly_increasing(r@),
        forall|i: int| 0 <= i < r@.len() ==> is_prime(#[trigger] r@[i] as int),
        forall|n: int| 0 <= n <= limit && is_prime(n) ==> r@.contains(n as u64),
{
    primal::Sieve::new(limit).primes_from(0).map(|p| p as u64).collect()
}

/// An ordered table of distinct primes; index `i` names the prime `primes[i]`.
pub struct PrimeTable {
    pub primes: Vec<u64>,
}

impl View for PrimeTable {
    type V = Seq<u64>;

    open spec fn view(&self) -> Seq<u64> {
        self.primes@
    }
}

impl PrimeTable {
    /// Strictly increasing and made of primes.
    pub open spec fn wf(&self) -> bool {
        &&& strictly_increasing(self@)
        &&& forall|i: int| 0 <= i < self@.len() ==> is_prime(#[trigger] self@[i] as int)
    }

    /// The table of every prime up to `limit` (and possibly a few beyond it).
    pub fn up_to(limit: usize) -> (t: PrimeTable)
        ensures
            t.wf(),
            forall|n: int| 0 <= n <= limit && is_prime(n) ==> t@.contains(n as u64),
    {
        PrimeTable { primes: sieve_primes(limit) }
    }

    /// Accepts `primes` as a table if it is strictly increasing and holds only
    /// primes.
    pub fn from_primes(primes: Vec<u64>) -> (r: Option<PrimeTable>)
        ensures
            r is Some <==> (strictly_increasing(primes@) && forall|i: int|
                0 <= i < primes@.len() ==> is_prime(#[trigger] primes@[i] as int)),
            r matches Some(t) ==> t@ == primes@ && t.wf(),
    {
        let n = primes.len();
        let mut i: usize = 0;
        while i < n
            invariant
                n == primes@.len(),
                i <= n,
                forall|a: int, b: int| 0 <= a < b < i ==> primes@[a] < primes@[b],
                forall|a: int| 0 <= a < i ==> is_prime(#[trigger] primes@[a] as int),
            decreases n - i,
        {
            if !check_prime(primes[i]) {
                return None;
            }
            if i > 0 && primes[i - 1] >= primes[i] {
                return None;
            }
            i = i + 1;
        }
        Some(PrimeTable { primes })
    }

    /// The number of primes in the table.
    pub fn len(&self) -> (r: usize)
        ensures
            r == self@.len(),
    {
        self.primes.len()
    }

    /// The prime at index `i`.
    pub fn get(&self, i: usize) -> (r: u64)
        requires
            i < self@.len(),
        ensures
            r == self@[i as int],
    {
        self.primes[i]
    }

    /// The largest index whose prime is at most `u`, or `None` when even the
    /// first prime exceeds `u`.
    pub fn highest_prime_index_at_most(&self, u: u64) -> (r: Option<usize>)
        requires
            self.wf(),
        ensures
            r is None <==> (self@.len() == 0 || self@[0] > u),
            r matches Some(i) ==> i < self@.len() && self@[i as int] <= u && (i + 1 == self@.len()
                || self@[i + 1] > u),
    {
        let n = self.primes.len();
        if n == 0 || self.primes[0] > u {
            return None;
        }
        // primes[lo] <= u, and primes[hi] > u unless hi == n
        let mut lo: usize = 0;
        let mut hi: usize = n;
        while lo + 1 < hi
            invariant
                self.wf(),
                n == self@.len(),
                lo < hi <= n,
                self@[lo as int] <= u,
                hi < n ==> self@[hi as int] > u,
            decreases hi - lo,
        {
            let mid = lo + (hi - lo) / 2;
            if self.primes[mid] <= u {
                lo = mid;
            } else {
                hi = mid;
            }
        }
        Some(lo)
    }
}

/// Trial division: `n` is prime.
fn check_prime(n: u64) -> (r: bool)
    ensures
        r == is_prime(n as int),
{
    if n < 2 {
        return false;
    }
    let mut d: u64 = 2;
    while d < n
        invariant
            2 <= d <= n,
            forall|e: int| 2 <= e < d ==> #[trigger] (n as int % e) != 0,
        decreases n - d,
    {
        if n % d == 0 {
            return false;
        }
        d = d + 1;
    }
    true
}

} // verus!
