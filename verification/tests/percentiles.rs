//! Percentiles of samples.
use netperf::echo::pct;
use netperf::stats::{percentile_of, Dist, TestResults};

fn dist(count: u64, min: u64, p50: u64, p90: u64, p99: u64, p100: u64, mean: u64) -> Dist {
    Dist { count, min, p50, p90, p99, p100, mean }
}

#[test]
fn no_samples_give_zeros() {
    assert_eq!(Dist::from_samples(vec![]), dist(0, 0, 0, 0, 0, 0, 0));
    assert_eq!(Dist::default(), dist(0, 0, 0, 0, 0, 0, 0));
    assert!(TestResults::default().streams.is_empty());
}

#[test]
fn one_sample_is_every_percentile() {
    assert_eq!(Dist::from_samples(vec![7]), dist(1, 7, 7, 7, 7, 7, 7));
}

#[test]
fn a_hundred_samples_out_of_order() {
    let v: Vec<u64> = (0..100u64).map(|i| (i * 37) % 100 + 1).collect();
    assert_eq!(Dist::from_samples(v), dist(100, 1, 50, 90, 99, 100, 50));
}

#[test]
fn ranks_are_rounded_up_and_the_mean_down() {
    assert_eq!(Dist::from_samples(vec![40, 10, 30, 20]), dist(4, 10, 20, 40, 40, 40, 25));
    assert_eq!(Dist::from_samples(vec![3, 1, 2, 4, 4]), dist(5, 1, 3, 4, 4, 4, 2));
}

#[test]
fn the_order_of_the_samples_does_not_matter() {
    let a = vec![5, 1, 9, 9, 2, 2, 2, 700];
    let mut b = a.clone();
    b.reverse();
    let mut c = a.clone();
    c.swap(0, 7);
    c.swap(2, 4);
    let d = Dist::from_samples(a);
    assert_eq!(d, Dist::from_samples(b));
    assert_eq!(d, Dist::from_samples(c));
    assert_eq!(d, dist(8, 1, 2, 700, 700, 700, 91));
}

#[test]
fn the_mean_of_the_greatest_samples_does_not_overflow() {
    let m = u64::MAX;
    assert_eq!(Dist::from_samples(vec![m, m, m]), dist(3, m, m, m, m, m, m));
    assert_eq!(Dist::from_samples(vec![m, 0]).mean, m / 2);
}

#[test]
fn percentiles_are_ordered_and_nearest() {
    let v = vec![90u64, 4, 4, 4, 17, 60, 60, 61, 3, 1000, 42];
    let d = Dist::from_samples(v.clone());
    assert!(d.min <= d.p50 && d.p50 <= d.p90 && d.p90 <= d.p99 && d.p99 <= d.p100);
    assert!(d.min <= d.mean && d.mean <= d.p100);
    let mut sorted = v.clone();
    sorted.sort();
    for p in 1..=100u64 {
        let x = percentile_of(&sorted, p);
        let covered = |w: u64| 100 * v.iter().filter(|&&s| s <= w).count() as u64;
        assert!(v.contains(&x));
        assert!(covered(x) >= p * v.len() as u64);
        assert!(covered(x - 1) < p * v.len() as u64);
    }
}

#[test]
fn percentiles_at_the_edges() {
    assert_eq!(pct(&[], 50), 0);
    assert_eq!(pct(&[5, 6, 7], 0), 5);
    assert_eq!(pct(&[5, 6, 7], 1), 5);
    assert_eq!(pct(&[5, 6, 7], 33), 5);
    assert_eq!(pct(&[5, 6, 7], 34), 6);
    assert_eq!(pct(&[5, 6, 7], 100), 7);
    assert_eq!(pct(&[5, 6, 7], 101), 7);
    assert_eq!(pct(&[5, 6, 7], 1_000_000), 7);
    assert_eq!(percentile_of(&[5, 6, 7], 67), 7);
    assert_eq!(percentile_of(&[5, 6, 7], 66), 6);
}
