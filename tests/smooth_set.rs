use smooth_gaps::generate::smooths_with_top;
use smooth_gaps::primes::PrimeTable;
use smooth_gaps::smooths::{next_upper_bound, top_prime_index, Smooths};

fn table(ps: &[u64]) -> PrimeTable {
    PrimeTable::from_primes(ps.to_vec()).unwrap()
}

fn smooth_in(ps: &[u64], lower: u64, upper: u64) -> Vec<u64> {
    ((lower + 1)..=upper)
        .filter(|&x| {
            let mut y = x;
            for &p in ps.iter() {
                while y % p == 0 {
                    y /= p;
                }
            }
            y == 1
        })
        .collect()
}

fn largest_prime(ps: &[u64], x: u64) -> u64 {
    *ps.iter().filter(|&&p| x % p == 0).max().unwrap()
}

fn check_window(s: &Smooths) {
    let v = s.values();
    for i in 0..v.len() {
        assert!(s.lower_bound < v[i] && v[i] <= s.upper_bound);
        if i + 1 < v.len() {
            assert!(v[i] < v[i + 1]);
        }
    }
}

#[test]
fn powers_of_two_up_to_1000() {
    let t = PrimeTable::up_to(100);
    let s = Smooths::new(&t, 1000);
    assert_eq!(s.values(), vec![2, 4, 8, 16, 32, 64, 128, 256, 512]);
    assert_eq!(s.len(), 9);
    assert_eq!(s.ind(), 1);
    check_window(&s);
}

#[test]
fn two_three_smooth_up_to_1000() {
    let t = PrimeTable::up_to(100);
    let mut s = Smooths::new(&t, 1000);
    s.add_prime_power(&t, 1);
    let v = s.values();
    assert_eq!(&v[..11], &[2, 3, 4, 6, 8, 9, 12, 16, 18, 24, 27]);
    assert_eq!(v, smooth_in(&[2, 3], 1, 1000));
    assert_eq!(s.get(10), 27);
    check_window(&s);
}

#[test]
fn add_prime_power_raises_lower_bound() {
    let t = PrimeTable::up_to(100);
    let mut s = Smooths::new(&t, 1000);
    s.add_prime_power(&t, 100);
    assert_eq!(s.lower_bound, 100);
    assert_eq!(s.values(), smooth_in(&[2, 3], 100, 1000));
    check_window(&s);
}

#[test]
fn admit_primes_through_index() {
    let t = PrimeTable::up_to(100);
    let mut s = Smooths::new(&t, 5000);
    s.admit_primes_through(&t, 3);
    assert_eq!(s.ind(), 4);
    assert_eq!(s.values(), smooth_in(&[2, 3, 5, 7], 1, 5000));
    s.admit_primes_through(&t, 1);
    assert_eq!(s.ind(), 4);
    check_window(&s);
}

#[test]
fn generator_largest_prime_exactly_once() {
    let ps = [2u64, 3, 5, 7, 11];
    let t = table(&ps);
    let (lower, upper) = (20u64, 3000u64);
    let mut all: Vec<u64> = Vec::new();
    for k in 0..ps.len() {
        let part = smooths_with_top(&t, lower, upper, k);
        for &x in part.iter() {
            assert_eq!(largest_prime(&ps, x), ps[k]);
            assert!(lower < x && x <= upper);
        }
        all.extend(part);
    }
    all.sort();
    assert_eq!(all, smooth_in(&ps, lower, upper));
}

#[test]
fn generator_prime_above_bound_gives_nothing() {
    let t = table(&[2, 3, 5, 7]);
    assert!(smooths_with_top(&t, 0, 6, 3).is_empty());
    assert_eq!(smooths_with_top(&t, 0, 7, 3), vec![7]);
}

#[test]
fn advance_from_100_to_150() {
    let t = PrimeTable::up_to(100);
    let mut s = Smooths::new(&t, 100);
    s.admit_primes_through(&t, 2);
    let before = s.values();
    assert_eq!(&before[before.len() - 2..], &[96, 100]);
    s.advance(&t, 150);
    assert_eq!(s.upper_bound, 150);
    // 150 / P[5] = 150 / 13
    assert_eq!(s.lower_bound, 11);
    let v = s.values();
    for x in [108u64, 120, 125, 128, 135, 144, 150].iter() {
        assert!(v.contains(x));
    }
    assert_eq!(v, smooth_in(&[2, 3, 5], 11, 150));
    check_window(&s);
}

#[test]
fn advance_repeatedly_keeps_the_whole_window() {
    let t = PrimeTable::up_to(100);
    let mut s = Smooths::new(&t, 1000);
    s.admit_primes_through(&t, 2);
    let mut upper = 1000u64;
    while upper < 100_000 {
        let next = next_upper_bound(upper, 100_000);
        s.advance(&t, next);
        upper = next;
        assert_eq!(s.values(), smooth_in(&[2, 3, 5], s.lower_bound, upper));
        check_window(&s);
    }
    assert_eq!(s.upper_bound, 100_000);
}

#[test]
fn find_indices_by_value() {
    let t = PrimeTable::up_to(100);
    let s = Smooths::new(&t, 1000);
    assert_eq!(s.find_ind_le(2), Some(0));
    assert_eq!(s.find_ind_le(1), None);
    assert_eq!(s.find_ind_le(100), Some(5));
    assert_eq!(s.find_ind_le(5000), Some(8));
    assert_eq!(s.find_ind_gt(100), Some(6));
    assert_eq!(s.find_ind_gt(1), Some(0));
    assert_eq!(s.find_ind_gt(512), None);
    assert_eq!(s.find_ind_gt(64), Some(6));
}

#[test]
fn top_prime_index_probes_from_the_top() {
    let t = table(&[2, 3, 5, 7]);
    assert_eq!(top_prime_index(&t, 4, 90), Some(2));
    assert_eq!(top_prime_index(&t, 2, 90), Some(1));
    assert_eq!(top_prime_index(&t, 4, 1), None);
    assert_eq!(top_prime_index(&t, 4, 49), Some(3));
}

#[test]
fn next_upper_bound_grows_by_half() {
    assert_eq!(next_upper_bound(100, 1000), 150);
    assert_eq!(next_upper_bound(100, 120), 120);
    assert_eq!(next_upper_bound(u64::MAX - 1, u64::MAX), u64::MAX);
    assert_eq!(next_upper_bound(7, 100), 10);
}

#[test]
fn widen_grows_by_half_up_to_n() {
    let t = PrimeTable::up_to(100);
    let mut s = Smooths::new(&t, 100);
    s.admit_primes_through(&t, 2);
    assert!(s.widen(&t, 1000));
    assert_eq!(s.upper_bound, 150);
    assert!(s.widen(&t, 160));
    assert_eq!(s.upper_bound, 160);
    assert!(!s.widen(&t, 160));
    assert_eq!(s.upper_bound, 160);
    assert_eq!(s.values(), smooth_in(&[2, 3, 5], s.lower_bound, 160));
}

#[test]
fn widen_from_one_grows_by_one() {
    let t = PrimeTable::up_to(100);
    let mut s = Smooths::new(&t, 1);
    assert!(s.values().is_empty());
    assert!(s.widen(&t, 10));
    assert_eq!(s.upper_bound, 2);
    // 1 is below every window, so 2 = 1 * 2 has nothing to grow from
    assert!(s.values().is_empty());
}

#[test]
fn close_gap_admits_only_new_primes() {
    let t = PrimeTable::up_to(100);
    let mut s = Smooths::new(&t, 200);
    assert!(!s.close_gap(&t, 0));
    assert_eq!(s.ind(), 1);
    assert!(s.close_gap(&t, 2));
    assert_eq!(s.ind(), 3);
    assert_eq!(s.values(), smooth_in(&[2, 3, 5], 1, 200));
    assert!(!s.close_gap(&t, 1));
    assert_eq!(s.ind(), 3);
}
