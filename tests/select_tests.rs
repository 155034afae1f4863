use quickselect::{
    choose_random, mean, nlogn_median, partition, pick_pivot, quickselect, quickselect_median,
    Pivot,
};

#[test]
fn test_sample() {
    let a = [1, 3, 4];
    let smpl = choose_random(&a).unwrap();
    assert!(a.contains(&smpl));
}

#[test]
fn test_quickselect() {
    let a = [1];
    assert_eq!(quickselect(&a, 0, Pivot::Random).unwrap(), 1);

    // Selection k of empty slice should return None
    let a: [i64; 0] = [];
    assert_eq!(quickselect(&a, 0, Pivot::Random), None);

    // the library holds integers: the float input is read as whole numbers
    let a: [f32; 4] = [1., 3., 5., 2.];
    let whole: Vec<i64> = a.iter().map(|x| *x as i64).collect();
    quickselect(&whole, 1, Pivot::Random);

    let a = [1, 2, 3, 4, 5];
    assert_eq!(quickselect(&a, 2, Pivot::Random).unwrap(), 3);
}

#[test]
fn test_median() {
    let a = [1, 3, 4, 5, 6, 6, 8, 2, 3];
    assert_eq!(nlogn_median(&a), quickselect_median(&a, Pivot::Random));
    assert_eq!(nlogn_median(&a), quickselect_median(&a, Pivot::MedianOfMedians));
}

#[test]
fn choose_random_on_empty_is_none() {
    let a: [i64; 0] = [];
    assert_eq!(choose_random(&a), None);
}

#[test]
fn select_matches_sorted_position_for_every_rank() {
    let a = [9, -4, 7, 7, 0, 12, -4, 3, 5, 1, 8, 7, 2];
    let mut sorted = a.to_vec();
    sorted.sort();
    for k in 0..a.len() {
        assert_eq!(quickselect(&a, k, Pivot::Random), Some(sorted[k]));
        assert_eq!(quickselect(&a, k, Pivot::MedianOfMedians), Some(sorted[k]));
    }
    assert_eq!(quickselect(&a, a.len(), Pivot::Random), None);
    assert_eq!(quickselect(&a, a.len(), Pivot::MedianOfMedians), None);
}

#[test]
fn select_on_single_element() {
    let a = [42];
    assert_eq!(quickselect(&a, 0, Pivot::MedianOfMedians), Some(42));
    assert_eq!(quickselect(&a, 1, Pivot::Random), None);
    assert_eq!(quickselect(&a, 7, Pivot::MedianOfMedians), None);
}

#[test]
fn select_on_empty_with_median_of_medians() {
    let a: [i64; 0] = [];
    assert_eq!(quickselect(&a, 0, Pivot::MedianOfMedians), None);
}

#[test]
fn select_middle_of_five_with_both_strategies() {
    let a = [1, 2, 3, 4, 5];
    assert_eq!(quickselect(&a, 2, Pivot::Random), Some(3));
    assert_eq!(quickselect(&a, 2, Pivot::MedianOfMedians), Some(3));
}

#[test]
fn sorted_median_of_even_and_odd_lengths() {
    // integer elements divide by two rounding toward zero
    assert_eq!(nlogn_median(&[1, 2, 3, 4]), Some(2));
    assert_eq!(nlogn_median(&[1, 2, 3]), Some(2));
    assert_eq!(nlogn_median(&[4, 1, 3, 2]), Some(2));
    assert_eq!(nlogn_median(&[-3, 0]), Some(-1));
    let empty: [i64; 0] = [];
    assert_eq!(nlogn_median(&empty), None);
}

#[test]
fn quickselect_median_agrees_with_sorted_median() {
    let cases: Vec<Vec<i64>> = vec![
        vec![],
        vec![5],
        vec![2, 9],
        vec![1, 2, 3, 4],
        vec![10, -10, 3, 3, 3, 8, 0, 1, 2, 7, 6, 5],
        vec![7, 7, 7, 7, 7, 7, 7],
        (0..37).map(|i| (i * 17) % 23 - 11).collect(),
    ];
    for a in cases.iter() {
        assert_eq!(quickselect_median(a, Pivot::Random), nlogn_median(a));
        assert_eq!(quickselect_median(a, Pivot::MedianOfMedians), nlogn_median(a));
    }
}

#[test]
fn median_of_extreme_values_does_not_overflow() {
    let a = [i64::MAX, i64::MAX];
    assert_eq!(nlogn_median(&a), Some(i64::MAX));
    assert_eq!(quickselect_median(&a, Pivot::MedianOfMedians), Some(i64::MAX));
    let b = [i64::MIN, i64::MIN + 1];
    assert_eq!(nlogn_median(&b), Some(i64::MIN + 1));
}

#[test]
fn mean_rounds_toward_zero() {
    assert_eq!(mean(2, 3), 2);
    assert_eq!(mean(-2, -3), -2);
    assert_eq!(mean(-3, 0), -1);
    assert_eq!(mean(i64::MAX, i64::MAX - 1), i64::MAX - 1);
}

#[test]
fn pick_pivot_cases() {
    let empty: [i64; 0] = [];
    assert_eq!(pick_pivot(&empty), None);
    assert_eq!(pick_pivot(&[4, 1, 3]), Some(3));
    assert_eq!(pick_pivot(&[4, 1, 3, 2]), Some(2));
    // groups [5,1,4,2,3] and [10,6,9,7,8] have medians 3 and 8; trailing 100 is left out
    let a = [5, 1, 4, 2, 3, 10, 6, 9, 7, 8, 100];
    assert_eq!(pick_pivot(&a), Some(5));
}

#[test]
fn pick_pivot_is_deterministic() {
    let a: Vec<i64> = (0..61).map(|i| (i * 29) % 61).collect();
    let first = pick_pivot(&a);
    for _ in 0..5 {
        assert_eq!(pick_pivot(&a), first);
        assert_eq!(quickselect_median(&a, Pivot::MedianOfMedians), Some(30));
    }
}

#[test]
fn partition_accounts_for_every_element() {
    let a = [3, 1, 4, 1, 5, 9, 2, 6, 5, 3, 5];
    let (lows, pivots, highs) = partition(&a, 5);
    assert_eq!(lows, vec![3, 1, 4, 1, 2, 3]);
    assert_eq!(pivots, vec![5, 5, 5]);
    assert_eq!(highs, vec![9, 6]);
    assert_eq!(lows.len() + pivots.len() + highs.len(), a.len());
    let (lows, pivots, highs) = partition(&a, 7);
    assert_eq!(lows.len(), 10);
    assert!(pivots.is_empty());
    assert_eq!(highs, vec![9]);
}
