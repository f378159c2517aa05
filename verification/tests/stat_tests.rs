use webgestalt_lib::stat::adjust;
use webgestalt_lib::stat::benjamini_hochberg;
use webgestalt_lib::stat::ranks;
use webgestalt_lib::stat::AdjustmentMethod;

fn key(x: f64) -> i64 {
    let b = x.to_bits() as i64;
    if b >= 0 {
        b
    } else {
        i64::MIN.wrapping_sub(b)
    }
}

fn value(k: i64) -> f64 {
    if k >= 0 {
        f64::from_bits(k as u64)
    } else {
        -f64::from_bits((-k) as u64)
    }
}

/// The adjustment of real p-values: the scaling in real numbers, the rest
/// by the library.
fn adjust_values(p: &[f64], method: AdjustmentMethod) -> Vec<f64> {
    let keys: Vec<i64> = p.iter().map(|x| key(*x)).collect();
    let rank = ranks(&keys);
    let m = p.len() as f64;
    let scaled: Vec<i64> = (0..p.len())
        .map(|i| {
            let s = p[i] * m / rank[i] as f64;
            key(if s > 1.0 { 1.0 } else { s })
        })
        .collect();
    adjust(&keys, &scaled, key(1.0), method).iter().map(|k| value(*k)).collect()
}

#[test]
fn ranks_are_stable_and_count_from_one() {
    let keys: Vec<i64> = vec![30, 10, 20, 10, 5];
    assert_eq!(ranks(&keys), vec![5, 2, 4, 3, 1]);
    assert_eq!(ranks(&vec![]), Vec::<usize>::new());
}

#[test]
fn benjamini_hochberg_worked_example() {
    let out = adjust_values(&[0.01, 0.04, 0.03, 0.005], AdjustmentMethod::BH);
    let expected = [0.02, 0.04, 0.04, 0.02];
    assert_eq!(out.len(), 4);
    for i in 0..4 {
        assert!((out[i] - expected[i]).abs() < 1e-12);
    }
}

#[test]
fn benjamini_hochberg_is_monotone_capped_and_not_below_raw() {
    let p = [0.01, 0.04, 0.03, 0.005];
    let out = adjust_values(&p, AdjustmentMethod::BH);
    let mut order: Vec<usize> = (0..p.len()).collect();
    order.sort_by(|a, b| p[*a].partial_cmp(&p[*b]).unwrap());
    for w in order.windows(2) {
        assert!(out[w[0]] <= out[w[1]]);
    }
    for i in 0..p.len() {
        assert!(out[i] <= 1.0);
        assert!(out[i] >= p[i]);
    }
}

#[test]
fn benjamini_hochberg_caps_at_one() {
    let out = adjust_values(&[0.9, 0.5, 0.8], AdjustmentMethod::BH);
    assert_eq!(out, vec![0.9, 0.9, 0.9]);
    let capped = adjust_values(&[1.0, 0.7], AdjustmentMethod::BH);
    assert_eq!(capped, vec![1.0, 1.0]);
}

#[test]
fn benjamini_hochberg_takes_the_minimum_from_the_right() {
    let p: Vec<i64> = vec![1, 2, 3, 4];
    let scaled: Vec<i64> = vec![40, 10, 30, 20];
    assert_eq!(benjamini_hochberg(&p, &scaled, 25), vec![10, 10, 20, 20]);
    assert_eq!(benjamini_hochberg(&p, &scaled, 15), vec![10, 10, 15, 15]);
    let shuffled: Vec<i64> = vec![3, 1, 4, 2];
    let by_place: Vec<i64> = vec![30, 40, 20, 10];
    assert_eq!(benjamini_hochberg(&shuffled, &by_place, 25), vec![20, 10, 20, 10]);
}

#[test]
fn benjamini_hochberg_gives_equal_p_values_equal_adjusted_values() {
    let p = [0.02, 0.5, 0.02, 0.02, 0.9];
    let out = adjust_values(&p, AdjustmentMethod::BH);
    assert_eq!(out[0], out[2]);
    assert_eq!(out[2], out[3]);
    for i in 0..p.len() {
        for j in 0..p.len() {
            if p[i] <= p[j] {
                assert!(out[i] <= out[j]);
            }
        }
    }
}

#[test]
fn unadjusted_returns_the_p_values() {
    let p = [0.2, 0.01, 0.7];
    assert_eq!(adjust_values(&p, AdjustmentMethod::Unadjusted), p.to_vec());
}

#[test]
fn adjust_of_nothing_is_nothing() {
    assert_eq!(adjust(&vec![], &vec![], 9, AdjustmentMethod::BH), Vec::<i64>::new());
}
