//! Divisibility of products of table primes by a table prime.

use vstd::prelude::*;
use vstd::arithmetic::div_mod::{lemma_fundamental_div_mod, lemma_mod_multiples_basic, lemma_small_mod};
use crate::primes::{PrimeTable, is_prime};
use crate::composite::{lemma_table_primes, prod, pw};

verus! {

/// A prime that divides `a * b` for some `0 < a < p` divides `b`.
proof fn lemma_euclid_small(p: int, a: int, b: int)
    requires
        is_prime(p),
        0 < a < p,
        b >= 0,
        (a * b) % p == 0,
    ensures
        b % p == 0,
    decreases a,
{
    if a > 1 {
        let r = p % a;
        let q = p / a;
        lemma_fundamental_div_mod(p, a);
        assert(0 <= r < a) by {
            vstd::arithmetic::div_mod::lemma_mod_bound(p, a);
        }
        assert(r != 0) by {
            assert(2 <= a < p);
            assert(p % a != 0);
        }
        let k = (a * b) / p;
        lemma_fundamental_div_mod(a * b, p);
        assert(r * b == (b - q * k) * p) by (nonlinear_arith)
            requires
                p == a * q + r,
                a * b == p * k,
        ;
        lemma_mod_multiples_basic(b - q * k, p);
        lemma_euclid_small(p, r, b);
    }
}

/// Euclid's lemma: a prime that divides a product divides one of the factors.
pub proof fn lemma_euclid(p: int, a: int, b: int)
    requires
        is_prime(p),
        a >= 0,
        b >= 0,
        (a * b) % p == 0,
    ensures
        a % p == 0 || b % p == 0,
{
    let r = a % p;
    if r != 0 {
        let q = a / p;
        lemma_fundamental_div_mod(a, p);
        assert(0 <= r < p) by {
            vstd::arithmetic::div_mod::lemma_mod_bound(a, p);
        }
        let k = (a * b) / p;
        lemma_fundamental_div_mod(a * b, p);
        assert(r * b == (k - q * b) * p) by (nonlinear_arith)
            requires
                a == p * q + r,
                a * b == p * k,
        ;
        lemma_mod_multiples_basic(k - q * b, p);
        lemma_euclid_small(p, r, b);
    }
}

/// A prime that divides a power of a prime is that prime.
pub proof fn lemma_prime_divides_power(p: int, q: int, e: nat)
    requires
        is_prime(p),
        is_prime(q),
        pw(q, e) % p == 0,
    ensures
        p == q,
        e >= 1,
    decreases e,
{
    if e == 0 {
        lemma_small_mod(1, p as nat);
    } else {
        crate::composite::lemma_pw_pos(q, (e - 1) as nat);
        lemma_euclid(p, q, pw(q, (e - 1) as nat));
        if q % p == 0 {
            if p > q {
                lemma_small_mod(q as nat, p as nat);
            } else if p < q {
                assert(q % p != 0);
            }
        } else {
            lemma_prime_divides_power(p, q, (e - 1) as nat);
        }
    }
}

/// A table prime divides the number of an exponent vector only where that
/// vector's exponent is positive.
pub proof fn lemma_prime_divides_prod(t: &PrimeTable, v: Seq<u32>, j: int)
    requires
        t.wf(),
        v.len() <= t@.len(),
        0 <= j < t@.len(),
        prod(t@, v) % (t@[j] as int) == 0,
    ensures
        j < v.len(),
        v[j] >= 1,
    decreases v.len(),
{
    let ps = t@;
    let p = ps[j] as int;
    assert(is_prime(p));
    lemma_table_primes(t);
    if v.len() == 0 {
        lemma_small_mod(1, p as nat);
    } else {
        let n = v.len() - 1;
        let q = ps[n] as int;
        assert(is_prime(q));
        crate::composite::lemma_prod_pos(ps, v.drop_last());
        crate::composite::lemma_pw_pos(q, v[n] as nat);
        lemma_euclid(p, prod(ps, v.drop_last()), pw(q, v[n] as nat));
        if prod(ps, v.drop_last()) % p == 0 {
            lemma_prime_divides_prod(t, v.drop_last(), j);
            assert(v.drop_last()[j] == v[j]);
        } else {
            lemma_prime_divides_power(p, q, v[n] as nat);
            if j != n {
                if j < n {
                    assert(ps[j] < ps[n]);
                } else {
                    assert(ps[n] < ps[j]);
                }
            }
        }
    }
}


/// A number has one exponent vector of each length over the table: equal
/// numbers of vectors of one length have equal vectors.
pub proof fn lemma_unique_factorization(t: &PrimeTable, v: Seq<u32>, w: Seq<u32>)
    requires
        t.wf(),
        v.len() == w.len(),
        v.len() <= t@.len(),
        prod(t@, v) == prod(t@, w),
    ensures
        v == w,
    decreases v.len(),
{
    let ps = t@;
    lemma_table_primes(t);
    if v.len() == 0 {
        assert(v =~= w);
    } else {
        let n = v.len() - 1;
        let p = ps[n] as int;
        let (a, b) = (v[n] as nat, w[n] as nat);
        let x = prod(ps, v.drop_last());
        let y = prod(ps, w.drop_last());
        crate::composite::lemma_prod_pos(ps, v.drop_last());
        crate::composite::lemma_prod_pos(ps, w.drop_last());
        // x * p^a == y * p^b
        if a != b {
            let (lo, hi, big, small, bigv) = if a < b {
                (a, b, x, y, v.drop_last())
            } else {
                (b, a, y, x, w.drop_last())
            };
            assert(prod(ps, v) == x * pw(p, a));
            assert(prod(ps, w) == y * pw(p, b));
            assert(small * pw(p, hi) == big * pw(p, lo));
            // small * p^hi == big * p^lo, so small * p^(hi - lo) == big
            crate::composite::lemma_pw_add(p, lo, (hi - lo) as nat);
            crate::composite::lemma_pw_pos(p, lo);
            let d = pw(p, (hi - lo) as nat);
            let q = pw(p, lo);
            assert((lo + (hi - lo) as nat) as nat == hi);
            assert(small * (q * d) == big * q);
            assert(small * d == big) by (nonlinear_arith)
                requires
                    small * (q * d) == big * q,
                    q >= 1,
            ;
            assert(pw(p, (hi - lo) as nat) == p * pw(p, (hi - lo - 1) as nat));
            assert(big == p * (small * pw(p, (hi - lo - 1) as nat))) by (nonlinear_arith)
                requires
                    big == small * d,
                    d == p * pw(p, (hi - lo - 1) as nat),
            ;
            crate::composite::lemma_pw_pos(p, (hi - lo - 1) as nat);
            vstd::arithmetic::div_mod::lemma_mod_multiples_basic(small * pw(p, (hi - lo - 1) as nat), p);
            assert((small * pw(p, (hi - lo - 1) as nat)) * p == p * (small * pw(p, (hi - lo - 1) as nat)))
                by (nonlinear_arith);
            lemma_prime_divides_prod(t, bigv, n);
        }
        crate::composite::lemma_pw_pos(p, a);
        assert(x == y) by (nonlinear_arith)
            requires
                x * pw(p, a) == y * pw(p, a),
                pw(p, a) >= 1,
        ;
        lemma_unique_factorization(t, v.drop_last(), w.drop_last());
        assert(v =~= w) by {
            assert forall|i: int| 0 <= i < v.len() implies v[i] == w[i] by {
                if i < n {
                    assert(v.drop_last()[i] == w.drop_last()[i]);
                }
            }
        }
    }
}

} // verus!
