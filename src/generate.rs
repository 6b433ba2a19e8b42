//! Every smooth number in a window whose largest prime is a given one.

use vstd::prelude::*;
use crate::primes::PrimeTable;
use crate::factor::{lemma_prime_divides_prod, lemma_unique_factorization};
use crate::composite::{
    Composite, bump, colex_lt, first_carry, lemma_bump_after, lemma_digits_small, lemma_div_lt,
    lemma_odometer_next, lemma_pointwise_le_colex, lemma_pw_le_prod, lemma_pw_mono, lemma_pw_pos,
    lemma_rank_bound, lemma_rank_colex, lemma_small_exponent, lemma_table_primes,
    primes_at_least_two, prod, pw, rank,
};

verus! {

/// `x` is the number of an exponent vector over `ps[0..=k]` whose exponent at
/// `k` is `e`.
pub open spec fn with_exponent(ps: Seq<u64>, x: int, k: int, e: int) -> bool {
    exists|v: Seq<u32>| v.len() == k + 1 && v[k] == e && #[trigger] prod(ps, v) == x
}

/// `x` is the number of an exponent vector over `ps[0..=k]` whose exponent at
/// `k` is positive: its largest prime is `ps[k]`.
pub open spec fn with_top(ps: Seq<u64>, x: int, k: int) -> bool {
    exists|v: Seq<u32>| v.len() == k + 1 && v[k] >= 1 && #[trigger] prod(ps, v) == x
}

/// Concatenation keeps the elements of both parts.
pub proof fn lemma_contains_append(a: Seq<u64>, b: Seq<u64>)
    ensures
        forall|x: u64| a.contains(x) ==> (a + b).contains(x),
        forall|x: u64| b.contains(x) ==> (a + b).contains(x),
{
    assert forall|x: u64| a.contains(x) implies (a + b).contains(x) by {
        let i = choose|i: int| 0 <= i < a.len() && a[i] == x;
        assert((a + b)[i] == x);
    }
    assert forall|x: u64| b.contains(x) implies (a + b).contains(x) by {
        let i = choose|i: int| 0 <= i < b.len() && b[i] == x;
        assert((a + b)[a.len() + i] == x);
    }
}

/// `x` is the number of an exponent vector over `ps[0..=k]` whose exponent at
/// `k` is positive and below `e`.
pub open spec fn exponent_below(ps: Seq<u64>, x: int, k: int, e: int) -> bool {
    exists|v: Seq<u32>| v.len() == k + 1 && 1 <= v[k] < e && #[trigger] prod(ps, v) == x
}

/// `x` is the number of a vector of length `n` that comes before rank `r`.
pub open spec fn made_before(ps: Seq<u64>, n: nat, x: int, r: int) -> bool {
    exists|v: Seq<u32>| v.len() == n && rank(v) < r && #[trigger] prod(ps, v) == x
}

/// Two vectors of one length are equal or ordered one way or the other.
pub proof fn lemma_colex_total(a: Seq<u32>, b: Seq<u32>)
    requires
        a.len() == b.len(),
    ensures
        a == b || colex_lt(a, b) || colex_lt(b, a),
    decreases a.len(),
{
    if a.len() == 0 {
        assert(a =~= b);
    } else if a.last() == b.last() {
        lemma_colex_total(a.drop_last(), b.drop_last());
        if a.drop_last() == b.drop_last() {
            assert(a =~= b) by {
                assert forall|t: int| 0 <= t < a.len() implies a[t] == b[t] by {
                    if t < a.len() - 1 {
                        assert(a.drop_last()[t] == b.drop_last()[t]);
                    }
                }
            }
        }
    }
}

/// A number has one largest prime: no number is made with its top exponent at
/// two different indices, so the generators for different indices never emit
/// the same number.
pub proof fn lemma_largest_prime_unique(t: &PrimeTable, x: int, k1: int, k2: int)
    requires
        t.wf(),
        0 <= k1 < t@.len(),
        0 <= k2 < t@.len(),
        with_top(t@, x, k1),
        with_top(t@, x, k2),
    ensures
        k1 == k2,
{
    if k1 != k2 {
        let (lo, hi) = if k1 < k2 { (k1, k2) } else { (k2, k1) };
        let v = choose|v: Seq<u32>| v.len() == lo + 1 && v[lo] >= 1 && #[trigger] prod(t@, v) == x;
        let w = choose|w: Seq<u32>| w.len() == hi + 1 && w[hi] >= 1 && #[trigger] prod(t@, w) == x;
        let p = t@[hi] as int;
        lemma_table_primes(t);
        crate::composite::lemma_prod_split(t@, w, hi);
        let r = prod(t@, w.update(hi, 0));
        let q = pw(p, (w[hi] - 1) as nat);
        assert(pw(p, w[hi] as nat) == p * q);
        assert(x == (r * q) * p) by (nonlinear_arith)
            requires
                x == r * pw(p, w[hi] as nat),
                pw(p, w[hi] as nat) == p * q,
        ;
        vstd::arithmetic::div_mod::lemma_mod_multiples_basic(r * q, p);
        lemma_prime_divides_prod(t, v, hi);
    }
}

/// Every number in `(lower, upper]` whose exponent vector over `P[0..=k]` has
/// exponent `e` at `k`: the odometer runs from `P[k]^e` until it carries into
/// index `k` or wraps.
pub fn smooths_with_exponent(t: &PrimeTable, lower: u64, upper: u64, k: usize, e: u32) -> (out: Vec<u64>)
    requires
        t.wf(),
        k < t@.len(),
        e >= 1,
        pw(t@[k as int] as int, e as nat) <= upper,
    ensures
        forall|i: int| 0 <= i < out@.len() ==> lower < #[trigger] out@[i] <= upper && with_exponent(
            t@,
            out@[i] as int,
            k as int,
            e as int,
        ),
        forall|v: Seq<u32>|
            v.len() == k + 1 && v[k as int] == e && lower < #[trigger] prod(t@, v) <= upper
                ==> out@.contains(prod(t@, v) as u64),
        forall|i: int, j: int| 0 <= i < j < out@.len() ==> out@[i] != out@[j],
{
    let ghost ps = t@;
    let ghost n = (k + 1) as nat;
    proof {
        lemma_table_primes(t);
    }
    let mut c = Composite::new(t, k, e);
    let mut out: Vec<u64> = Vec::new();
    proof {
        assert forall|v: Seq<u32>|
            v.len() == n && v[k as int] == e && lower < #[trigger] prod(ps, v) <= upper
                implies !colex_lt(v, c.es@) by {
            assert forall|i: int| 0 <= i < v.len() implies #[trigger] c.es@[i] <= v[i] by {}
            lemma_pointwise_le_colex(c.es@, v);
            lemma_digits_small(ps, v);
            lemma_digits_small(ps, c.es@);
            if colex_lt(v, c.es@) && colex_lt(c.es@, v) {
                lemma_rank_colex(v, c.es@);
                lemma_rank_colex(c.es@, v);
            }
        }
    }
    loop
        invariant_except_break
            c.es@[k as int] == e,
            c.value <= upper,
            forall|i: int| 0 <= i < out@.len() ==> made_before(ps, n, #[trigger] out@[i] as int, rank(c.es@)),
        invariant
            forall|i: int, j: int| 0 <= i < j < out@.len() ==> out@[i] != out@[j],
            t.wf(),
            ps == t@,
            primes_at_least_two(ps),
            c.wf(t),
            n == k + 1,
            c.es@.len() == n,
            forall|i: int| 0 <= i < out@.len() ==> lower < #[trigger] out@[i] <= upper && with_exponent(
                ps,
                out@[i] as int,
                k as int,
                e as int,
            ),
            forall|v: Seq<u32>|
                v.len() == n && v[k as int] == e && lower < #[trigger] prod(ps, v) <= upper && colex_lt(
                    v,
                    c.es@,
                ) ==> out@.contains(prod(ps, v) as u64),
        ensures
            forall|i: int| 0 <= i < out@.len() ==> lower < #[trigger] out@[i] <= upper && with_exponent(
                ps,
                out@[i] as int,
                k as int,
                e as int,
            ),
            forall|v: Seq<u32>|
                v.len() == n && v[k as int] == e && lower < #[trigger] prod(ps, v) <= upper
                    ==> out@.contains(prod(ps, v) as u64),
            forall|i: int, j: int| 0 <= i < j < out@.len() ==> out@[i] != out@[j],
        decreases pw(64, n) - rank(c.es@),
    {
        let ghost prev = c.es@;
        let ghost before = out@;
        if c.value > lower {
            out.push(c.value);
            proof {
                assert(out@[out@.len() - 1] == c.value);
                assert forall|i: int, j: int| 0 <= i < j < out@.len() implies out@[i] != out@[j] by {
                    if j == out@.len() - 1 {
                        assert(out@[i] == before[i]);
                        assert(made_before(ps, n, before[i] as int, rank(c.es@)));
                        let v = choose|v: Seq<u32>|
                            v.len() == n && rank(v) < rank(c.es@) && #[trigger] prod(ps, v) == before[i] as int;
                        if prod(ps, v) == prod(ps, c.es@) {
                            lemma_unique_factorization(t, v, c.es@);
                        }
                    } else {
                        assert(out@[i] == before[i] && out@[j] == before[j]);
                    }
                }
                assert forall|x: u64| before.contains(x) implies out@.contains(x) by {
                    let i = choose|i: int| 0 <= i < before.len() && before[i] == x;
                    assert(out@[i] == x);
                }
            }
        }
        proof {
            lemma_digits_small(ps, prev);
        }
        let more = c.inc_vec_with_bound(t, upper);
        proof {
            assert forall|v: Seq<u32>|
                v.len() == n && v[k as int] == e && lower < #[trigger] prod(ps, v) <= upper && (
                colex_lt(prev, v) || v == prev) && (!more || c.es@[k as int] != e || colex_lt(
                    v,
                    c.es@,
                )) implies v == prev by {
                if colex_lt(prev, v) {
                    lemma_odometer_next(ps, prev, upper as int, v);
                    let j = choose|j: int|
                        first_carry(ps, prev, upper as int, j) && c.es@ == #[trigger] bump(prev, j);
                    lemma_digits_small(ps, v);
                    lemma_digits_small(ps, c.es@);
                    if c.es@[k as int] != e {
                        if j < k {
                            assert(bump(prev, j)[k as int] == prev[k as int]);
                        }
                        assert(j == k);
                        assert(c.es@.last() == e + 1);
                        assert(!colex_lt(c.es@, v));
                    } else if colex_lt(v, c.es@) {
                        if colex_lt(c.es@, v) {
                            lemma_rank_colex(v, c.es@);
                            lemma_rank_colex(c.es@, v);
                        } else {
                            lemma_rank_colex(v, c.es@);
                        }
                    }
                }
            }
            assert forall|v: Seq<u32>|
                v.len() == n && v[k as int] == e && lower < #[trigger] prod(ps, v) <= upper && (
                !more || c.es@[k as int] != e || colex_lt(v, c.es@)) implies out@.contains(
                prod(ps, v) as u64,
            ) by {
                lemma_colex_total(v, prev);
                if v == prev {
                    assert(out@[out@.len() - 1] == prod(ps, v));
                }
            }
        }
        proof {
            assert(c.es@.len() == k + 1);
        }
        if !more || c.es[k] != e {
            break;
        }
        proof {
            let j = choose|j: int| first_carry(ps, prev, upper as int, j) && c.es@ == #[trigger] bump(prev, j);
            lemma_bump_after(prev, j);
            lemma_digits_small(ps, c.es@);
            lemma_rank_colex(prev, c.es@);
            lemma_rank_bound(c.es@);
            assert forall|i: int| 0 <= i < out@.len() implies made_before(ps, n, #[trigger] out@[i] as int, rank(c.es@)) by {
                if i < before.len() {
                    assert(out@[i] == before[i]);
                    assert(made_before(ps, n, before[i] as int, rank(prev)));
                    let v = choose|v: Seq<u32>|
                        v.len() == n && rank(v) < rank(prev) && #[trigger] prod(ps, v) == before[i] as int;
                } else {
                    assert(out@[i] == prod(ps, prev));
                    assert(prev.len() == n && rank(prev) < rank(c.es@) && prod(ps, prev) == out@[i] as int);
                }
            }
        }
    }
    out
}

/// Every number in `(lower, upper]` whose largest prime is `P[k]`, taken
/// exponent by exponent of `P[k]`.
pub fn smooths_with_top(t: &PrimeTable, lower: u64, upper: u64, k: usize) -> (out: Vec<u64>)
    requires
        t.wf(),
        k < t@.len(),
    ensures
        forall|i: int| 0 <= i < out@.len() ==> lower < #[trigger] out@[i] <= upper && with_top(
            t@,
            out@[i] as int,
            k as int,
        ),
        forall|v: Seq<u32>|
            v.len() == k + 1 && v[k as int] >= 1 && lower < #[trigger] prod(t@, v) <= upper
                ==> out@.contains(prod(t@, v) as u64),
        forall|i: int, j: int| 0 <= i < j < out@.len() ==> out@[i] != out@[j],
{
    let ghost ps = t@;
    proof {
        lemma_table_primes(t);
    }
    let p = t.primes[k];
    let mut out: Vec<u64> = Vec::new();
    if p > upper {
        proof {
            assert forall|v: Seq<u32>|
                v.len() == k + 1 && v[k as int] >= 1 && lower < #[trigger] prod(ps, v) <= upper
                    implies false by {
                lemma_pw_le_prod(ps, v, k as int);
                lemma_pw_mono(p as int, 1, v[k as int] as nat);
                assert(pw(p as int, 1) == p) by {
                    reveal_with_fuel(pw, 2);
                }
            }
        }
        return out;
    }
    let mut e: u32 = 1;
    let mut pe: u64 = p;
    proof {
        reveal_with_fuel(pw, 2);
    }
    loop
        invariant_except_break
            pe == pw(p as int, e as nat),
            pe <= upper,
            1 <= e,
            forall|i: int| 0 <= i < out@.len() ==> exponent_below(ps, #[trigger] out@[i] as int, k as int, e as int),
        invariant
            forall|i: int, j: int| 0 <= i < j < out@.len() ==> out@[i] != out@[j],
            t.wf(),
            ps == t@,
            k < ps.len(),
            p == ps[k as int],
            p >= 2,
            forall|i: int| 0 <= i < out@.len() ==> lower < #[trigger] out@[i] <= upper && with_top(
                ps,
                out@[i] as int,
                k as int,
            ),
            forall|v: Seq<u32>|
                v.len() == k + 1 && 1 <= v[k as int] < e && lower < #[trigger] prod(ps, v) <= upper
                    ==> out@.contains(prod(ps, v) as u64),
        ensures
            forall|i: int| 0 <= i < out@.len() ==> lower < #[trigger] out@[i] <= upper && with_top(
                ps,
                out@[i] as int,
                k as int,
            ),
            forall|v: Seq<u32>|
                v.len() == k + 1 && v[k as int] >= 1 && lower < #[trigger] prod(ps, v) <= upper
                    ==> out@.contains(prod(ps, v) as u64),
            forall|i: int, j: int| 0 <= i < j < out@.len() ==> out@[i] != out@[j],
        decreases upper - pe,
    {
        let mut part = smooths_with_exponent(t, lower, upper, k, e);
        let ghost a = out@;
        let ghost b = part@;
        out.append(&mut part);
        proof {
            lemma_contains_append(a, b);
            assert(out@ == a + b);
            assert forall|i: int, j: int| 0 <= i < j < out@.len() implies out@[i] != out@[j] by {
                if i < a.len() && j >= a.len() {
                    assert(exponent_below(ps, a[i] as int, k as int, e as int));
                    let v = choose|v: Seq<u32>|
                        v.len() == k + 1 && 1 <= v[k as int] < e && #[trigger] prod(ps, v) == a[i] as int;
                    assert(with_exponent(ps, b[j - a.len()] as int, k as int, e as int));
                    let w = choose|w: Seq<u32>|
                        w.len() == k + 1 && w[k as int] == e && #[trigger] prod(ps, w) == b[j - a.len()] as int;
                    if prod(ps, v) == prod(ps, w) {
                        lemma_unique_factorization(t, v, w);
                    }
                } else if i >= a.len() {
                    assert(out@[i] == b[i - a.len()] && out@[j] == b[j - a.len()]);
                } else {
                    assert(out@[i] == a[i] && out@[j] == a[j]);
                }
            }
            assert forall|i: int| 0 <= i < out@.len() implies lower < #[trigger] out@[i] <= upper
                && with_top(ps, out@[i] as int, k as int) by {
                if i >= a.len() {
                    assert(out@[i] == b[i - a.len()]);
                    assert(with_exponent(ps, b[i - a.len()] as int, k as int, e as int));
                }
            }
        }
        if upper / p < pe {
            proof {
                lemma_div_lt(upper as int, p as int, pe as int);
                assert forall|v: Seq<u32>|
                    v.len() == k + 1 && v[k as int] >= 1 && lower < #[trigger] prod(ps, v) <= upper
                        implies out@.contains(prod(ps, v) as u64) by {
                    if v[k as int] > e {
                        lemma_pw_le_prod(ps, v, k as int);
                        lemma_pw_mono(p as int, (e + 1) as nat, v[k as int] as nat);
                        assert(pw(p as int, (e + 1) as nat) == p * pe);
                        assert(pe * p == p * pe) by (nonlinear_arith);
                    }
                }
            }
            break;
        }
        proof {
            lemma_div_lt(upper as int, p as int, pe as int);
            lemma_small_exponent(p as int, e as nat);
            lemma_pw_pos(p as int, e as nat);
            assert(pw(p as int, (e + 1) as nat) == p * pe);
            assert(pe * p == p * pe) by (nonlinear_arith);
            assert(pe * p > pe) by (nonlinear_arith)
                requires
                    p >= 2,
                    pe >= 1,
            ;
            assert forall|i: int| 0 <= i < out@.len() implies exponent_below(
                ps,
                #[trigger] out@[i] as int,
                k as int,
                e + 1,
            ) by {
                if i < a.len() {
                    assert(out@[i] == a[i]);
                    assert(exponent_below(ps, a[i] as int, k as int, e as int));
                    let v = choose|v: Seq<u32>|
                        v.len() == k + 1 && 1 <= v[k as int] < e && #[trigger] prod(ps, v) == a[i] as int;
                } else {
                    assert(out@[i] == b[i - a.len()]);
                    assert(with_exponent(ps, b[i - a.len()] as int, k as int, e as int));
                    let w = choose|w: Seq<u32>|
                        w.len() == k + 1 && w[k as int] == e && #[trigger] prod(ps, w) == b[i - a.len()] as int;
                }
            }
        }
        pe = pe * p;
        e = e + 1;
    }
    out
}

} // verus!
