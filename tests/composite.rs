use smooth_gaps::composite::Composite;
use smooth_gaps::primes::PrimeTable;

fn table(ps: &[u64]) -> PrimeTable {
    PrimeTable::from_primes(ps.to_vec()).unwrap()
}

fn value_of(ps: &[u64], es: &[u32]) -> u64 {
    let mut v: u64 = 1;
    for (i, &e) in es.iter().enumerate() {
        v *= ps[i].pow(e);
    }
    v
}

#[test]
fn composite_new_set_and_reset() {
    let t = table(&[2, 3, 5]);
    let mut c = Composite::new(&t, 2, 3);
    assert_eq!(c.value, 125);
    assert_eq!(c.es, vec![0, 0, 3]);
    c.set_e(&t, 0, 2);
    assert_eq!(c.value, 500);
    assert_eq!(c.es, vec![2, 0, 3]);
    assert!(!c.try_inc_ind(&t, 600, 0));
    assert_eq!(c.es, vec![0, 0, 3]);
    assert_eq!(c.value, 125);
}

#[test]
fn composite_try_inc_within_bound() {
    let t = table(&[2, 3, 5]);
    let mut c = Composite::new(&t, 1, 1);
    assert_eq!(c.value, 3);
    assert!(c.try_inc_ind(&t, 6, 0));
    assert_eq!(c.es, vec![1, 1]);
    assert_eq!(c.value, 6);
    // the bound is inclusive: 12 is allowed, 24 is not
    assert!(c.try_inc_ind(&t, 12, 0));
    assert_eq!(c.value, 12);
    assert!(!c.try_inc_ind(&t, 23, 0));
    assert_eq!(c.value, 3);
}

#[test]
fn composite_set_e_lowers_value() {
    let t = table(&[2, 3, 5, 7]);
    let mut c = Composite::new(&t, 3, 2);
    c.set_e(&t, 1, 4);
    assert_eq!(c.value, 49 * 81);
    c.set_e(&t, 1, 1);
    assert_eq!(c.value, 49 * 3);
    c.set_e(&t, 3, 0);
    assert_eq!(c.value, 3);
}

#[test]
fn composite_cache_matches_exponents() {
    let ps = [2u64, 3, 5, 7];
    let t = table(&ps);
    let mut c = Composite::new(&t, 3, 1);
    let steps: [(usize, u32); 6] = [(0, 3), (2, 2), (1, 1), (0, 0), (3, 4), (2, 0)];
    for &(i, e) in steps.iter() {
        c.set_e(&t, i, e);
        assert_eq!(c.value, value_of(&ps, &c.es));
    }
    for _ in 0..50 {
        c.try_inc_ind(&t, 5000, 1);
        assert_eq!(c.value, value_of(&ps, &c.es));
        c.try_inc_ind(&t, 5000, 0);
        assert_eq!(c.value, value_of(&ps, &c.es));
    }
}

#[test]
fn odometer_visits_each_smooth_once() {
    let ps = [2u64, 3, 5];
    let t = table(&ps);
    let bound: u64 = 100;
    let mut c = Composite::new(&t, 2, 0);
    assert_eq!(c.value, 1);
    let mut seen = vec![c.value];
    while c.inc_vec_with_bound(&t, bound) {
        assert!(c.value <= bound);
        seen.push(c.value);
    }
    assert_eq!(c.value, 1);
    assert_eq!(c.es, vec![0, 0, 0]);
    let mut expected: Vec<u64> = (1..=bound)
        .filter(|&x| {
            let mut y = x;
            for &p in ps.iter() {
                while y % p == 0 {
                    y /= p;
                }
            }
            y == 1
        })
        .collect();
    seen.sort();
    expected.sort();
    assert_eq!(seen, expected);
}

#[test]
fn odometer_carries_to_first_index_that_fits() {
    let t = table(&[2, 3, 5]);
    let mut c = Composite::new(&t, 2, 1);
    c.set_e(&t, 0, 3);
    // 8 * 5 = 40; doubling gives 80 > 50, so the carry goes to 3: 3 * 5 = 15
    assert!(c.inc_vec_with_bound(&t, 50));
    assert_eq!(c.es, vec![0, 1, 1]);
    assert_eq!(c.value, 15);
}

#[test]
fn composite_increment_stops_at_the_64_bit_limit() {
    let t = table(&[2, 3]);
    let mut c = Composite::new(&t, 0, 62);
    assert_eq!(c.value, 1u64 << 62);
    assert!(c.try_inc_ind(&t, u64::MAX, 0));
    assert_eq!(c.value, 1u64 << 63);
    assert!(!c.try_inc_ind(&t, u64::MAX, 0));
    assert_eq!(c.value, 1);
    assert_eq!(c.es, vec![0]);
}

#[test]
fn composites_compare_by_value() {
    let t = table(&[2, 3, 5]);
    let a = Composite::new(&t, 0, 2);
    let mut b = Composite::new(&t, 1, 0);
    b.set_e(&t, 0, 2);
    assert!(a == b);
    let c = a.clone();
    assert_eq!(c.value, 4);
    assert!(c != Composite::new(&t, 1, 1));
}
