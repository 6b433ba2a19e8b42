use smooth_gaps::gaps::{earliest, find_gap, left, right};
use smooth_gaps::primes::PrimeTable;
use smooth_gaps::smooths::Smooths;

fn isqrt(x: u64) -> u64 {
    let mut r: u64 = 0;
    while (r + 1) * (r + 1) <= x {
        r += 1;
    }
    r
}

fn two_sqrt(x: u64) -> u64 {
    2 * isqrt(x)
}

fn naive_first_gap(v: &[u64], start: usize, w: &dyn Fn(u64) -> u64) -> Option<usize> {
    for x in start..v.len() - 1 {
        let r = right(v[x], w(v[x])) as u128;
        let l = left(v[x + 1], w(v[x + 1])) as u128;
        if l > r + 1 {
            return Some(x);
        }
    }
    None
}

#[test]
fn sieve_table_holds_the_primes() {
    let t = PrimeTable::up_to(30);
    assert!(t.len() >= 10);
    let first: Vec<u64> = (0..10).map(|i| t.get(i)).collect();
    assert_eq!(first, vec![2, 3, 5, 7, 11, 13, 17, 19, 23, 29]);
}

#[test]
fn from_primes_checks_its_input() {
    assert!(PrimeTable::from_primes(vec![2, 3, 5, 7]).is_some());
    assert!(PrimeTable::from_primes(vec![3, 2]).is_none());
    assert!(PrimeTable::from_primes(vec![2, 4]).is_none());
    assert!(PrimeTable::from_primes(vec![2, 2]).is_none());
    assert!(PrimeTable::from_primes(vec![1]).is_none());
    assert!(PrimeTable::from_primes(vec![]).is_some());
}

#[test]
fn highest_prime_index_by_binary_search() {
    let t = PrimeTable::from_primes(vec![2, 3, 5, 7, 11]).unwrap();
    assert_eq!(t.highest_prime_index_at_most(10), Some(3));
    assert_eq!(t.highest_prime_index_at_most(11), Some(4));
    assert_eq!(t.highest_prime_index_at_most(100), Some(4));
    assert_eq!(t.highest_prime_index_at_most(2), Some(0));
    assert_eq!(t.highest_prime_index_at_most(1), None);
}

#[test]
fn interval_ends_saturate() {
    assert_eq!(left(10, 3), 8);
    assert_eq!(left(5, 10), 0);
    assert_eq!(left(5, 6), 0);
    assert_eq!(left(u64::MAX, 0), u64::MAX);
    assert_eq!(right(5, 2), 8);
    assert_eq!(right(u64::MAX - 1, 5), u64::MAX);
    assert_eq!(right(u64::MAX - 2, 1), u64::MAX);
}

#[test]
fn gap_scan_on_powers_of_two() {
    let t = PrimeTable::up_to(100);
    let s = Smooths::new(&t, 1000);
    // right(32) = 32 + 10 + 1 = 43 and left(64) = 64 - 16 + 1 = 49 > 44
    assert_eq!(s.first_gap(0, &two_sqrt), Some(4));
    assert_eq!(s.get(4), 32);
    assert_eq!(s.first_gap(5, &two_sqrt), Some(5));
}

#[test]
fn gap_scan_on_two_three_smooth() {
    let t = PrimeTable::up_to(100);
    let mut s = Smooths::new(&t, 1000);
    s.add_prime_power(&t, 1);
    let v = s.values();
    // no two consecutive values up to 972 leave a gap
    assert_eq!(v[v.len() - 1], 972);
    assert_eq!(s.first_gap(0, &two_sqrt), None);
    assert_eq!(naive_first_gap(&v, 0, &two_sqrt), None);
    for start in 0..v.len() - 1 {
        assert_eq!(s.first_gap(start, &two_sqrt), naive_first_gap(&v, start, &two_sqrt));
    }
}

#[test]
fn gap_scan_without_gap() {
    let v: Vec<u64> = (1..100).collect();
    assert_eq!(find_gap(&v, 0, v.len() - 1, &two_sqrt), None);
    let w = vec![10u64, 11, 40, 41];
    assert_eq!(find_gap(&w, 0, 3, &two_sqrt), Some(1));
    assert_eq!(find_gap(&w, 2, 3, &two_sqrt), None);
    assert_eq!(find_gap(&w, 1, 1, &two_sqrt), None);
}

#[test]
fn earliest_of_slab_results() {
    assert_eq!(earliest(&vec![None, Some(7), Some(3), None]), Some(3));
    assert_eq!(earliest(&vec![None, None]), None);
    assert_eq!(earliest(&vec![]), None);
}

#[test]
fn slab_scans_combine_to_the_first_gap() {
    let t = PrimeTable::up_to(100);
    let mut s = Smooths::new(&t, 100_000);
    s.admit_primes_through(&t, 1);
    let v = s.values();
    let last = v.len() - 1;
    let whole = find_gap(&v, 0, last, &two_sqrt);
    assert!(whole.is_some());
    for step in [1usize, 3, 7, 50].iter() {
        let mut found = Vec::new();
        let mut start = 0;
        while start < last {
            let stop = (start + step).min(last);
            found.push(find_gap(&v, start, stop, &two_sqrt));
            start = stop;
        }
        assert_eq!(earliest(&found), whole);
    }
}
