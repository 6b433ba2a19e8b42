//! A positive integer held as a vector of exponents over the prime table,
//! together with its value.

use vstd::prelude::*;
use crate::primes::{PrimeTable, is_prime, strictly_increasing};

verus! {

/// `b` raised to the power `e`.
pub open spec fn pw(b: int, e: nat) -> int
    decreases e,
{
    if e == 0 {
        1
    } else {
        b * pw(b, (e - 1) as nat)
    }
}

/// The number whose exponent over `ps[i]` is `es[i]`, for every `i < es.len()`.
pub open spec fn prod(ps: Seq<u64>, es: Seq<u32>) -> int
    decreases es.len(),
{
    if es.len() == 0 {
        1
    } else {
        prod(ps, es.drop_last()) * pw(ps[es.len() - 1] as int, es.last() as nat)
    }
}

/// The vector of `n` zero exponents, whose number is 1.
pub open spec fn zeros(n: nat) -> Seq<u32> {
    Seq::new(n, |t: int| 0u32)
}

/// The exponent vector one step of the odometer makes from `a` when it carries
/// into index `j`: the exponents below `j` are cleared and the one at `j` grows
/// by one.
pub open spec fn bump(a: Seq<u32>, j: int) -> Seq<u32> {
    Seq::new(a.len(), |t: int| if t < j { 0u32 } else if t == j { (a[j] + 1) as u32 } else { a[t] })
}

/// Powers of a positive base are positive.
pub proof fn lemma_pw_pos(b: int, e: nat)
    requires
        b >= 1,
    ensures
        pw(b, e) >= 1,
    decreases e,
{
    if e > 0 {
        lemma_pw_pos(b, (e - 1) as nat);
        assert(b * pw(b, (e - 1) as nat) >= 1) by (nonlinear_arith)
            requires
                b >= 1,
                pw(b, (e - 1) as nat) >= 1,
        ;
    }
}

/// Exponents add under multiplication.
pub proof fn lemma_pw_add(b: int, e1: nat, e2: nat)
    ensures
        pw(b, e1 + e2) == pw(b, e1) * pw(b, e2),
    decreases e1,
{
    if e1 > 0 {
        lemma_pw_add(b, (e1 - 1) as nat, e2);
        assert((e1 + e2 - 1) as nat == ((e1 - 1) as nat + e2) as nat);
        assert(b * (pw(b, (e1 - 1) as nat) * pw(b, e2)) == (b * pw(b, (e1 - 1) as nat)) * pw(b, e2))
            by (nonlinear_arith);
    }
}

/// Powers of a positive base grow with the exponent.
pub proof fn lemma_pw_mono(b: int, e1: nat, e2: nat)
    requires
        b >= 1,
        e1 <= e2,
    ensures
        pw(b, e1) <= pw(b, e2),
{
    lemma_pw_add(b, e1, (e2 - e1) as nat);
    lemma_pw_pos(b, e1);
    lemma_pw_pos(b, (e2 - e1) as nat);
    assert(pw(b, e1) * pw(b, (e2 - e1) as nat) >= pw(b, e1)) by (nonlinear_arith)
        requires
            pw(b, e1) >= 1,
            pw(b, (e2 - e1) as nat) >= 1,
    ;
}

/// Powers of a base of at least 2 grow at least as fast as powers of 2.
pub proof fn lemma_pw_ge_two(b: int, e: nat)
    requires
        b >= 2,
    ensures
        pw(b, e) >= pw(2, e),
    decreases e,
{
    if e > 0 {
        lemma_pw_ge_two(b, (e - 1) as nat);
        lemma_pw_pos(2, (e - 1) as nat);
        assert(b * pw(b, (e - 1) as nat) >= 2 * pw(2, (e - 1) as nat)) by (nonlinear_arith)
            requires
                b >= 2,
                pw(b, (e - 1) as nat) >= pw(2, (e - 1) as nat),
                pw(2, (e - 1) as nat) >= 1,
        ;
    }
}

/// An exponent whose power fits in 64 bits is below 64.
pub proof fn lemma_small_exponent(b: int, e: nat)
    requires
        b >= 2,
        pw(b, e) <= u64::MAX,
    ensures
        e < 64,
{
    if e >= 64 {
        lemma_pw_ge_two(b, e);
        lemma_pw_mono(2, 64, e);
        reveal_with_fuel(pw, 9);
        assert(pw(2, 8) == 256);
        lemma_pw_add(2, 8, 8);
        assert(pw(2, 16) == 65536);
        lemma_pw_add(2, 16, 16);
        assert(pw(2, 32) == 0x1_0000_0000);
        lemma_pw_add(2, 32, 32);
        assert(pw(2, 64) == 0x1_0000_0000_0000_0000);
    }
}

/// The table's primes are all at least 2.
pub open spec fn primes_at_least_two(ps: Seq<u64>) -> bool {
    forall|i: int| 0 <= i < ps.len() ==> #[trigger] ps[i] >= 2
}

/// A table's primes are at least 2.
pub proof fn lemma_table_primes(t: &PrimeTable)
    requires
        t.wf(),
    ensures
        primes_at_least_two(t@),
{
    assert forall|i: int| 0 <= i < t@.len() implies #[trigger] t@[i] >= 2 by {
        assert(is_prime(t@[i] as int));
    }
}

/// The number of an exponent vector is positive.
pub proof fn lemma_prod_pos(ps: Seq<u64>, es: Seq<u32>)
    requires
        primes_at_least_two(ps),
        es.len() <= ps.len(),
    ensures
        prod(ps, es) >= 1,
    decreases es.len(),
{
    if es.len() > 0 {
        lemma_prod_pos(ps, es.drop_last());
        lemma_pw_pos(ps[es.len() - 1] as int, es.last() as nat);
        assert(prod(ps, es.drop_last()) * pw(ps[es.len() - 1] as int, es.last() as nat) >= 1)
            by (nonlinear_arith)
            requires
                prod(ps, es.drop_last()) >= 1,
                pw(ps[es.len() - 1] as int, es.last() as nat) >= 1,
        ;
    }
}

/// The number factors into the power at index `i` and the rest.
pub proof fn lemma_prod_split(ps: Seq<u64>, es: Seq<u32>, i: int)
    requires
        0 <= i < es.len(),
        es.len() <= ps.len(),
    ensures
        prod(ps, es) == prod(ps, es.update(i, 0)) * pw(ps[i] as int, es[i] as nat),
    decreases es.len(),
{
    let n = es.len() - 1;
    let u = es.update(i, 0);
    if i == n {
        assert(u.drop_last() =~= es.drop_last());
        assert(pw(ps[i] as int, 0) == 1);
    } else {
        assert(u.drop_last() =~= es.drop_last().update(i, 0));
        lemma_prod_split(ps, es.drop_last(), i);
        let a = prod(ps, es.drop_last().update(i, 0));
        let b = pw(ps[i] as int, es[i] as nat);
        let c = pw(ps[n] as int, es[n] as nat);
        assert(a * b * c == a * c * b) by (nonlinear_arith);
    }
}

/// Setting one exponent changes the number by the matching power alone.
pub proof fn lemma_prod_update(ps: Seq<u64>, es: Seq<u32>, i: int, e: u32)
    requires
        0 <= i < es.len(),
        es.len() <= ps.len(),
    ensures
        prod(ps, es.update(i, e)) == prod(ps, es.update(i, 0)) * pw(ps[i] as int, e as nat),
{
    lemma_prod_split(ps, es.update(i, e), i);
    assert(es.update(i, e).update(i, 0) =~= es.update(i, 0));
}

/// A factor of the number: the power at index `i` is at most the number.
pub proof fn lemma_pw_le_prod(ps: Seq<u64>, es: Seq<u32>, i: int)
    requires
        0 <= i < es.len(),
        es.len() <= ps.len(),
        primes_at_least_two(ps),
    ensures
        pw(ps[i] as int, es[i] as nat) <= prod(ps, es),
{
    lemma_prod_split(ps, es, i);
    lemma_prod_pos(ps, es.update(i, 0));
    lemma_pw_pos(ps[i] as int, es[i] as nat);
    let a = prod(ps, es.update(i, 0));
    let b = pw(ps[i] as int, es[i] as nat);
    assert(a * b >= b) by (nonlinear_arith)
        requires
            a >= 1,
            b >= 1,
    ;
}

/// `p` to the power `e`, where the result fits in 64 bits.
fn pow_u64(p: u64, e: u32) -> (r: u64)
    requires
        p >= 1,
        pw(p as int, e as nat) <= u64::MAX,
    ensures
        r == pw(p as int, e as nat),
{
    let mut r: u64 = 1;
    let mut i: u32 = 0;
    while i < e
        invariant
            p >= 1,
            i <= e,
            r == pw(p as int, i as nat),
            pw(p as int, e as nat) <= u64::MAX,
        decreases e - i,
    {
        proof {
            lemma_pw_mono(p as int, (i + 1) as nat, e as nat);
            assert(pw(p as int, (i + 1) as nat) == p * pw(p as int, i as nat));
        }
        r = r * p;
        i = i + 1;
    }
    r
}

/// A number held as exponents over the first primes of a table, with its value.
#[derive(Debug)]
pub struct Composite {
    pub value: u64,
    pub es: Vec<u32>,
}

impl Clone for Composite {
    fn clone(&self) -> (r: Composite)
        ensures
            r.value == self.value,
            r.es@ == self.es@,
    {
        Composite { value: self.value, es: self.es.clone() }
    }
}

/// Two composites are equal when their values are.
impl PartialEq for Composite {
    fn eq(&self, other: &Composite) -> (r: bool)
        ensures
            r == (self.value == other.value),
    {
        self.value == other.value
    }
}

impl vstd::std_specs::cmp::PartialEqSpecImpl for Composite {
    open spec fn obeys_eq_spec() -> bool {
        true
    }

    open spec fn eq_spec(&self, other: &Composite) -> bool {
        self.value == other.value
    }
}

impl Composite {
    /// The exponents cover at least one and at most every prime of the table,
    /// and `value` is the number they describe.
    pub open spec fn wf(&self, t: &PrimeTable) -> bool {
        &&& t.wf()
        &&& 1 <= self.es@.len() <= t@.len()
        &&& self.value == prod(t@, self.es@)
    }

    /// The number `P[e_ind]^e_val`, held with exponents over `P[0..=e_ind]`.
    pub fn new(t: &PrimeTable, e_ind: usize, e_val: u32) -> (c: Composite)
        requires
            t.wf(),
            e_ind < t@.len(),
            pw(t@[e_ind as int] as int, e_val as nat) <= u64::MAX,
        ensures
            c.wf(t),
            c.es@ == zeros((e_ind + 1) as nat).update(e_ind as int, e_val),
            c.value == pw(t@[e_ind as int] as int, e_val as nat),
    {
        let table_len = t.primes.len();
        assert(e_ind + 1 <= table_len);
        let mut es: Vec<u32> = vec![0; e_ind + 1];
        es.set(e_ind, e_val);
        proof {
            lemma_table_primes(t);
            assert(es@ =~= zeros((e_ind + 1) as nat).update(e_ind as int, e_val));
            lemma_prod_update(t@, zeros((e_ind + 1) as nat), e_ind as int, e_val);
            lemma_prod_zeros(t@, (e_ind + 1) as nat);
            assert(zeros((e_ind + 1) as nat).update(e_ind as int, 0) =~= zeros((e_ind + 1) as nat));
        }
        let value = pow_u64(t.primes[e_ind], e_val);
        Composite { value, es }
    }

    /// Sets the exponent at `ind` to `new_e`, adjusting `value` by one
    /// multiplication or division with a power of that prime.
    pub fn set_e(&mut self, t: &PrimeTable, ind: usize, new_e: u32)
        requires
            old(self).wf(t),
            ind < old(self).es@.len(),
            prod(t@, old(self).es@.update(ind as int, new_e)) <= u64::MAX,
        ensures
            final(self).wf(t),
            final(self).es@ == old(self).es@.update(ind as int, new_e),
    {
        let old_e = self.es[ind];
        let p = t.primes[ind];
        let ghost ps = t@;
        let ghost es = self.es@;
        let ghost rest = prod(ps, es.update(ind as int, 0));
        proof {
            lemma_table_primes(t);
            lemma_prod_split(ps, es, ind as int);
            lemma_prod_update(ps, es, ind as int, new_e);
            lemma_prod_pos(ps, es.update(ind as int, 0));
            lemma_pw_pos(p as int, new_e as nat);
        }
        if old_e > new_e {
            let d = old_e - new_e;
            proof {
                lemma_pw_mono(p as int, d as nat, old_e as nat);
                lemma_pw_le_prod(ps, es, ind as int);
                lemma_pw_add(p as int, new_e as nat, d as nat);
                assert((new_e + d) as nat == old_e as nat);
            }
            let change = pow_u64(p, d);
            proof {
                let a = rest * pw(p as int, new_e as nat);
                assert(self.value == a * change) by (nonlinear_arith)
                    requires
                        self.value == rest * pw(p as int, old_e as nat),
                        pw(p as int, old_e as nat) == pw(p as int, new_e as nat) * change,
                        a == rest * pw(p as int, new_e as nat),
                ;
                lemma_pw_pos(p as int, d as nat);
                vstd::arithmetic::div_mod::lemma_div_multiples_vanish(a, change as int);
                assert(change * a == a * change) by (nonlinear_arith);
            }
            self.value = self.value / change;
        } else {
            let d = new_e - old_e;
            proof {
                lemma_pw_add(p as int, old_e as nat, d as nat);
                assert((old_e + d) as nat == new_e as nat);
                lemma_pw_pos(p as int, old_e as nat);
                lemma_pw_pos(p as int, d as nat);
                assert(pw(p as int, d as nat) <= u64::MAX) by (nonlinear_arith)
                    requires
                        rest >= 1,
                        pw(p as int, old_e as nat) >= 1,
                        rest * (pw(p as int, old_e as nat) * pw(p as int, d as nat)) <= u64::MAX,
                        pw(p as int, d as nat) >= 1,
                ;
            }
            let change = pow_u64(p, d);
            proof {
                assert(self.value * change == rest * pw(p as int, new_e as nat)) by (nonlinear_arith)
                    requires
                        self.value == rest * pw(p as int, old_e as nat),
                        pw(p as int, new_e as nat) == pw(p as int, old_e as nat) * change,
                ;
            }
            self.value = self.value * change;
        }
        self.es.set(ind, new_e);
    }

    /// Tries to raise the exponent at `ind` by one. If the number would then
    /// exceed `bound`, the exponent is cleared instead and the result is false.
    pub fn try_inc_ind(&mut self, t: &PrimeTable, bound: u64, ind: usize) -> (r: bool)
        requires
            old(self).wf(t),
            ind < old(self).es@.len(),
        ensures
            final(self).wf(t),
            r == (old(self).value * t@[ind as int] <= bound),
            r ==> final(self).es@ == old(self).es@.update(ind as int, (old(self).es@[ind as int] + 1) as u32),
            !r ==> final(self).es@ == old(self).es@.update(ind as int, 0),
    {
        let p = t.primes[ind];
        let ghost ps = t@;
        let ghost es = self.es@;
        proof {
            lemma_table_primes(t);
            lemma_div_lt(bound as int, p as int, self.value as int);
        }
        if bound / p < self.value {
            proof {
                lemma_prod_update(ps, es, ind as int, 0);
                lemma_prod_split(ps, es, ind as int);
                lemma_prod_pos(ps, es.update(ind as int, 0));
                lemma_pw_pos(p as int, es[ind as int] as nat);
                assert(es.update(ind as int, 0).update(ind as int, 0) =~= es.update(ind as int, 0));
                assert(pw(p as int, 0) == 1);
                let a = prod(ps, es.update(ind as int, 0));
                let b = pw(p as int, es[ind as int] as nat);
                assert(a <= a * b) by (nonlinear_arith)
                    requires
                        a >= 1,
                        b >= 1,
                ;
            }
            self.set_e(t, ind, 0);
            false
        } else {
            let e = self.es[ind];
            proof {
                lemma_pw_le_prod(ps, es, ind as int);
                lemma_small_exponent(p as int, e as nat);
                lemma_prod_split(ps, es, ind as int);
                lemma_prod_update(ps, es, ind as int, (e + 1) as u32);
                assert(pw(p as int, (e + 1) as nat) == p * pw(p as int, e as nat));
                let a = prod(ps, es.update(ind as int, 0));
                let b = pw(p as int, e as nat);
                assert(a * (p * b) == (a * b) * p) by (nonlinear_arith);
            }
            self.set_e(t, ind, e + 1);
            true
        }
    }

    /// One step of the odometer over the exponents: tries indices 0, 1, ... in
    /// turn and stops at the first that can be raised without the number
    /// exceeding `bound`. False when none can: every exponent is then zero.
    pub fn inc_vec_with_bound(&mut self, t: &PrimeTable, bound: u64) -> (r: bool)
        requires
            old(self).wf(t),
        ensures
            final(self).wf(t),
            final(self).es@.len() == old(self).es@.len(),
            r ==> exists|j: int|
                first_carry(t@, old(self).es@, bound as int, j) && final(self).es@ == #[trigger] bump(
                    old(self).es@,
                    j,
                ),
            !r ==> final(self).es@ == zeros(old(self).es@.len()) && no_carry(
                t@,
                old(self).es@,
                bound as int,
            ),
    {
        let n = self.es.len();
        let ghost a = self.es@;
        let mut i: usize = 0;
        while i < n
            invariant
                self.wf(t),
                a == old(self).es@,
                n == a.len(),
                self.es@.len() == n,
                i <= n,
                self.es@ == cleared_below(a, i as int),
                forall|k: int| 0 <= k < i ==> prod(t@, #[trigger] bump(a, k)) > bound,
            decreases n - i,
        {
            proof {
                lemma_table_primes(t);
                lemma_prod_split(t@, self.es@, i as int);
                assert(self.es@[i as int] == a[i as int]);
                assert(a[i as int] < 64) by {
                    lemma_pw_le_prod(t@, cleared_below(a, i as int), i as int);
                    lemma_small_exponent(t@[i as int] as int, a[i as int] as nat);
                }
                assert(cleared_below(a, i as int).update(i as int, (a[i as int] + 1) as u32) =~= bump(a, i as int));
                assert(cleared_below(a, i as int).update(i as int, 0) =~= cleared_below(a, i + 1));
                lemma_prod_update(t@, cleared_below(a, i as int), i as int, (a[i as int] + 1) as u32);
                lemma_prod_update(t@, cleared_below(a, i as int), i as int, a[i as int]);
                assert(cleared_below(a, i as int).update(i as int, a[i as int]) =~= cleared_below(a, i as int));
                assert(pw(t@[i as int] as int, (a[i as int] + 1) as nat) == t@[i as int] * pw(t@[i as int] as int, a[i as int] as nat));
                let rest = prod(t@, cleared_below(a, i as int).update(i as int, 0));
                let q = pw(t@[i as int] as int, a[i as int] as nat);
                assert(rest * (t@[i as int] * q) == (rest * q) * t@[i as int]) by (nonlinear_arith);
                assert(prod(t@, bump(a, i as int)) == self.value * t@[i as int]);
            }
            let ghost before = self.value;
            if self.try_inc_ind(t, bound, i) {
                proof {
                    assert(first_carry(t@, a, bound as int, i as int));
                }
                return true;
            }
            i = i + 1;
        }
        proof {
            assert(cleared_below(a, n as int) =~= zeros(n as nat));
        }
        false
    }
}

/// `a` with every exponent below index `i` cleared.
pub open spec fn cleared_below(a: Seq<u32>, i: int) -> Seq<u32> {
    Seq::new(a.len(), |t: int| if t < i { 0u32 } else { a[t] })
}

/// Index `j` is where the odometer carries to from `a`: the first index whose
/// bump keeps the number within `bound`.
pub open spec fn first_carry(ps: Seq<u64>, a: Seq<u32>, bound: int, j: int) -> bool {
    &&& 0 <= j < a.len()
    &&& prod(ps, bump(a, j)) <= bound
    &&& forall|k: int| 0 <= k < j ==> prod(ps, #[trigger] bump(a, k)) > bound
}

/// No index of `a` can be bumped within `bound`: the odometer wraps.
pub open spec fn no_carry(ps: Seq<u64>, a: Seq<u32>, bound: int) -> bool {
    forall|k: int| 0 <= k < a.len() ==> prod(ps, #[trigger] bump(a, k)) > bound
}

/// `x / p < v` exactly when `x < v * p`.
pub proof fn lemma_div_lt(x: int, p: int, v: int)
    requires
        x >= 0,
        p > 0,
    ensures
        (x / p < v) <==> (x < v * p),
{
    vstd::arithmetic::div_mod::lemma_fundamental_div_mod(x, p);
    let q = x / p;
    let r = x % p;
    assert(0 <= r < p) by {
        vstd::arithmetic::div_mod::lemma_mod_bound(x, p);
    }
    if q < v {
        assert(x < v * p) by (nonlinear_arith)
            requires
                x == p * q + r,
                r < p,
                q < v,
                p > 0,
        ;
    } else {
        assert(x >= v * p) by (nonlinear_arith)
            requires
                x == p * q + r,
                r >= 0,
                q >= v,
                p > 0,
        ;
    }
}

/// The vector of zeros describes 1.
pub proof fn lemma_prod_zeros(ps: Seq<u64>, n: nat)
    ensures
        prod(ps, zeros(n)) == 1,
    decreases n,
{
    if n > 0 {
        assert(zeros(n).drop_last() =~= zeros((n - 1) as nat));
        lemma_prod_zeros(ps, (n - 1) as nat);
        assert(pw(ps[n - 1] as int, 0) == 1);
    }
}


/// Colexicographic order on exponent vectors of one length: the highest index
/// at which they differ decides.
pub open spec fn colex_lt(a: Seq<u32>, b: Seq<u32>) -> bool
    decreases a.len(),
{
    if a.len() == 0 || a.len() != b.len() {
        false
    } else if a.last() != b.last() {
        a.last() < b.last()
    } else {
        colex_lt(a.drop_last(), b.drop_last())
    }
}

/// The position of a vector with exponents below 64 in colexicographic order.
pub open spec fn rank(a: Seq<u32>) -> int
    decreases a.len(),
{
    if a.len() == 0 {
        0
    } else {
        rank(a.drop_last()) + a.last() * pw(64, (a.len() - 1) as nat)
    }
}

/// Every exponent is below 64.
pub open spec fn small_digits(a: Seq<u32>) -> bool {
    forall|t: int| 0 <= t < a.len() ==> #[trigger] a[t] < 64
}

/// `m` is the highest index at which `a` and `b` differ, and `a` is smaller there.
pub open spec fn colex_witness(a: Seq<u32>, b: Seq<u32>, m: int) -> bool {
    &&& a.len() == b.len()
    &&& 0 <= m < a.len()
    &&& a[m] < b[m]
    &&& forall|t: int| m < t < a.len() ==> #[trigger] a[t] == b[t]
}

/// A highest differing index where `a` is smaller puts `a` before `b`.
pub proof fn lemma_colex_from_witness(a: Seq<u32>, b: Seq<u32>, m: int)
    requires
        colex_witness(a, b, m),
    ensures
        colex_lt(a, b),
    decreases a.len(),
{
    let n = a.len() - 1;
    if m < n {
        assert(a[n] == b[n]);
        lemma_colex_from_witness(a.drop_last(), b.drop_last(), m);
    }
}

/// When `a` comes before `b`, some highest differing index shows it.
pub proof fn lemma_colex_to_witness(a: Seq<u32>, b: Seq<u32>) -> (m: int)
    requires
        colex_lt(a, b),
    ensures
        colex_witness(a, b, m),
    decreases a.len(),
{
    let n = a.len() - 1;
    if a.last() != b.last() {
        n
    } else {
        let m = lemma_colex_to_witness(a.drop_last(), b.drop_last());
        assert forall|t: int| m < t < a.len() implies #[trigger] a[t] == b[t] by {
            if t < n {
                assert(a.drop_last()[t] == b.drop_last()[t]);
            }
        }
        m
    }
}

/// A vector that is nowhere smaller than another is equal to it or after it.
pub proof fn lemma_pointwise_le_colex(a: Seq<u32>, b: Seq<u32>)
    requires
        a.len() == b.len(),
        forall|t: int| 0 <= t < a.len() ==> #[trigger] a[t] <= b[t],
    ensures
        a == b || colex_lt(a, b),
    decreases a.len(),
{
    if a.len() > 0 {
        let n = a.len() - 1;
        assert(a[n] <= b[n]);
        if a.last() == b.last() {
            assert forall|t: int| 0 <= t < a.drop_last().len() implies #[trigger] a.drop_last()[t]
                <= b.drop_last()[t] by {
                assert(a[t] <= b[t]);
            }
            lemma_pointwise_le_colex(a.drop_last(), b.drop_last());
            if a.drop_last() == b.drop_last() {
                assert(a =~= b) by {
                    assert forall|t: int| 0 <= t < a.len() implies a[t] == b[t] by {
                        if t < n {
                            assert(a.drop_last()[t] == b.drop_last()[t]);
                        }
                    }
                }
            }
        }
    } else {
        assert(a =~= b);
    }
}

/// The number grows with every exponent.
pub proof fn lemma_prod_pointwise(ps: Seq<u64>, a: Seq<u32>, b: Seq<u32>)
    requires
        primes_at_least_two(ps),
        a.len() == b.len(),
        a.len() <= ps.len(),
        forall|t: int| 0 <= t < a.len() ==> #[trigger] a[t] <= b[t],
    ensures
        prod(ps, a) <= prod(ps, b),
    decreases a.len(),
{
    if a.len() > 0 {
        let n = a.len() - 1;
        assert forall|t: int| 0 <= t < a.drop_last().len() implies #[trigger] a.drop_last()[t]
            <= b.drop_last()[t] by {
            assert(a[t] <= b[t]);
        }
        lemma_prod_pointwise(ps, a.drop_last(), b.drop_last());
        assert(a[n] <= b[n]);
        lemma_pw_mono(ps[n] as int, a[n] as nat, b[n] as nat);
        lemma_prod_pos(ps, a.drop_last());
        lemma_pw_pos(ps[n] as int, a[n] as nat);
        let x = prod(ps, a.drop_last());
        let y = prod(ps, b.drop_last());
        let u = pw(ps[n] as int, a[n] as nat);
        let w = pw(ps[n] as int, b[n] as nat);
        assert(x * u <= y * w) by (nonlinear_arith)
            requires
                1 <= x <= y,
                1 <= u <= w,
        ;
    }
}

/// The exponents of a number that fits in 64 bits are below 64.
pub proof fn lemma_digits_small(ps: Seq<u64>, a: Seq<u32>)
    requires
        primes_at_least_two(ps),
        a.len() <= ps.len(),
        prod(ps, a) <= u64::MAX,
    ensures
        small_digits(a),
{
    assert forall|t: int| 0 <= t < a.len() implies #[trigger] a[t] < 64 by {
        lemma_pw_le_prod(ps, a, t);
        lemma_small_exponent(ps[t] as int, a[t] as nat);
    }
}

/// A step of the odometer moves forward in colexicographic order.
pub proof fn lemma_bump_after(a: Seq<u32>, j: int)
    requires
        0 <= j < a.len(),
        small_digits(a),
    ensures
        colex_lt(a, bump(a, j)),
{
    assert(colex_witness(a, bump(a, j), j));
    lemma_colex_from_witness(a, bump(a, j), j);
}

/// The rank of a vector of length `n` with exponents below 64 is below `64^n`.
pub proof fn lemma_rank_bound(a: Seq<u32>)
    requires
        small_digits(a),
    ensures
        0 <= rank(a) < pw(64, a.len()),
    decreases a.len(),
{
    if a.len() > 0 {
        let n = (a.len() - 1) as nat;
        lemma_rank_bound(a.drop_last());
        assert(a[n as int] < 64);
        lemma_pw_pos(64, n);
        let r = rank(a.drop_last());
        let q = pw(64, n);
        let d = a.last() as int;
        assert(0 <= r + d * q < 64 * q) by (nonlinear_arith)
            requires
                0 <= r < q,
                0 <= d < 64,
        ;
    }
}

/// Rank follows the colexicographic order.
pub proof fn lemma_rank_colex(a: Seq<u32>, b: Seq<u32>)
    requires
        colex_lt(a, b),
        small_digits(a),
        small_digits(b),
    ensures
        rank(a) < rank(b),
    decreases a.len(),
{
    let n = (a.len() - 1) as nat;
    assert(small_digits(a.drop_last()));
    assert(small_digits(b.drop_last()));
    if a.last() != b.last() {
        lemma_rank_bound(a.drop_last());
        lemma_rank_bound(b.drop_last());
        let q = pw(64, n);
        let x = a.last() as int;
        let y = b.last() as int;
        let ra = rank(a.drop_last());
        let rb = rank(b.drop_last());
        assert(ra + x * q < rb + y * q) by (nonlinear_arith)
            requires
                0 <= ra < q,
                0 <= rb,
                x < y,
        ;
    } else {
        lemma_rank_colex(a.drop_last(), b.drop_last());
    }
}

/// The odometer visits every vector within the bound, in colexicographic
/// order and once each: when it carries at `j` from `a`, no vector within the
/// bound lies strictly between `a` and its successor; when it carries
/// nowhere, no vector within the bound comes after `a`.
pub proof fn lemma_odometer_next(ps: Seq<u64>, a: Seq<u32>, bound: int, v: Seq<u32>)
    requires
        primes_at_least_two(ps),
        a.len() <= ps.len(),
        v.len() == a.len(),
        small_digits(a),
        prod(ps, v) <= bound,
        colex_lt(a, v),
    ensures
        !no_carry(ps, a, bound),
        forall|j: int| first_carry(ps, a, bound, j) ==> v == bump(a, j) || colex_lt(#[trigger] bump(a, j), v),
{
    let m = lemma_colex_to_witness(a, v);
    assert forall|t: int| 0 <= t < a.len() implies #[trigger] bump(a, m)[t] <= v[t] by {}
    lemma_prod_pointwise(ps, bump(a, m), v);
    assert(prod(ps, bump(a, m)) <= bound);
    assert forall|j: int| first_carry(ps, a, bound, j) implies v == bump(a, j) || colex_lt(
        #[trigger] bump(a, j),
        v,
    ) by {
        assert(!(m < j));
        if m > j {
            assert(colex_witness(bump(a, j), v, m));
            lemma_colex_from_witness(bump(a, j), v, m);
        } else {
            assert forall|t: int| 0 <= t < a.len() implies #[trigger] bump(a, j)[t] <= v[t] by {}
            lemma_pointwise_le_colex(bump(a, j), v);
        }
    }
}


/// The vector of zeros, whose number is 1, comes first in colexicographic
/// order: the odometer started from 1 meets every vector after it.
pub proof fn lemma_zeros_first(v: Seq<u32>)
    ensures
        v == zeros(v.len()) || colex_lt(zeros(v.len()), v),
{
    assert forall|t: int| 0 <= t < v.len() implies #[trigger] zeros(v.len())[t] <= v[t] by {}
    lemma_pointwise_le_colex(zeros(v.len()), v);
}

/// One odometer step from `a` within `bound`, as `inc_vec_with_bound` reports
/// it: when it returns true, the new vector is the colexicographically
/// smallest vector within the bound that comes after `a`; when it returns
/// false, no vector within the bound comes after `a`. So the steps from 1
/// visit each vector within the bound once, in increasing order, until the
/// odometer wraps.
pub proof fn lemma_odometer_successor(ps: Seq<u64>, a: Seq<u32>, bound: int, b: Seq<u32>, r: bool)
    requires
        primes_at_least_two(ps),
        a.len() <= ps.len(),
        prod(ps, a) <= u64::MAX,
        r ==> exists|j: int| first_carry(ps, a, bound, j) && b == #[trigger] bump(a, j),
        !r ==> b == zeros(a.len()) && no_carry(ps, a, bound),
    ensures
        r ==> colex_lt(a, b) && prod(ps, b) <= bound,
        r ==> forall|v: Seq<u32>|
            v.len() == a.len() && #[trigger] prod(ps, v) <= bound && colex_lt(a, v) ==> v == b
                || colex_lt(b, v),
        !r ==> forall|v: Seq<u32>|
            v.len() == a.len() && #[trigger] prod(ps, v) <= bound ==> !colex_lt(a, v),
{
    lemma_digits_small(ps, a);
    if r {
        let j = choose|j: int| first_carry(ps, a, bound, j) && b == #[trigger] bump(a, j);
        lemma_bump_after(a, j);
        assert forall|v: Seq<u32>|
            v.len() == a.len() && #[trigger] prod(ps, v) <= bound && colex_lt(a, v) implies v == b
                || colex_lt(b, v) by {
            lemma_odometer_next(ps, a, bound, v);
        }
    } else {
        assert forall|v: Seq<u32>| v.len() == a.len() && #[trigger] prod(ps, v) <= bound implies !colex_lt(
            a,
            v,
        ) by {
            if colex_lt(a, v) {
                lemma_odometer_next(ps, a, bound, v);
            }
        }
    }
}

} // verus!
