use salary_stats::stats::{mean, median, range, sort_ascending, variance, Ratio};

fn value(r: Ratio) -> f64 {
    r.num as f64 / r.den as f64
}

#[test]
fn four_values_statistics() {
    let v: Vec<i64> = vec![10, 20, 30, 40];
    let m = mean(&v).unwrap();
    assert_eq!(m, Ratio { num: 100, den: 4 });
    assert_eq!(value(m), 25.0);
    let mut w = v.clone();
    let med = median(&mut w).unwrap();
    assert_eq!(med, Ratio { num: 50, den: 2 });
    assert_eq!(value(med), 25.0);
    assert_eq!(range(&v), 30);
    let var = variance(&v).unwrap();
    assert_eq!(var, Ratio { num: 2000, den: 16 });
    assert_eq!(value(var), 125.0);
    let sd = value(var).sqrt();
    assert!((sd - 11.18).abs() < 0.01);
}

#[test]
fn single_value_statistics() {
    let v: Vec<i64> = vec![5];
    assert_eq!(value(mean(&v).unwrap()), 5.0);
    let mut w = v.clone();
    assert_eq!(median(&mut w).unwrap(), Ratio { num: 5, den: 1 });
    assert_eq!(value(variance(&v).unwrap()), 0.0);
    assert_eq!(range(&v), 0);
}

#[test]
fn empty_column_has_no_mean_or_median() {
    let v: Vec<i64> = Vec::new();
    assert_eq!(mean(&v), None);
    let mut w = v.clone();
    assert_eq!(median(&mut w), None);
    assert_eq!(variance(&v), None);
}

#[test]
fn mean_lies_between_min_and_max() {
    let v: Vec<i64> = vec![-7, 3, 12, 0, 5];
    let m = value(mean(&v).unwrap());
    assert!(m >= -7.0 && m <= 12.0);
    assert_eq!(mean(&v).unwrap(), Ratio { num: 13, den: 5 });
}

#[test]
fn median_ignores_order() {
    let mut a: Vec<i64> = vec![1, 2, 3, 4, 5, 6];
    let mut b: Vec<i64> = vec![6, 1, 5, 2, 4, 3];
    let ma = median(&mut a).unwrap();
    let mb = median(&mut b).unwrap();
    assert_eq!(ma, mb);
    assert_eq!(value(ma), 3.5);
    assert_eq!(b, vec![1, 2, 3, 4, 5, 6]);
}

#[test]
fn median_of_odd_length_is_middle_value() {
    let mut v: Vec<i64> = vec![9, -2, 4];
    assert_eq!(median(&mut v).unwrap(), Ratio { num: 4, den: 1 });
}

#[test]
fn sort_keeps_duplicates() {
    let mut v: Vec<i64> = vec![3, 1, 3, -1, 2, 1];
    sort_ascending(&mut v);
    assert_eq!(v, vec![-1, 1, 1, 2, 3, 3]);
}

#[test]
fn range_of_negative_values() {
    let v: Vec<i64> = vec![-10, -40, -20];
    assert_eq!(range(&v), 30);
}

#[test]
fn mean_of_extreme_values_does_not_overflow() {
    let v: Vec<i64> = vec![i64::MAX, i64::MAX];
    assert_eq!(mean(&v).unwrap(), Ratio { num: 2 * (i64::MAX as i128), den: 2 });
}
