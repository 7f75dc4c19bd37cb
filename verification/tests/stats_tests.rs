use release_test::calculate_average;
use release_test::calculate_median;
use release_test::calculate_std_deviation;
use release_test::calculate_variance;
use release_test::find_max;
use release_test::find_min;

fn bits(values: &[f64]) -> Vec<u64> {
    values.iter().map(|v| v.to_bits()).collect()
}

fn from_bits(r: u64) -> f64 {
    f64::from_bits(r)
}

#[test]
fn test_calculate_average() {
    assert_eq!(from_bits(calculate_average(&bits(&[1.0, 2.0, 3.0]))), 2.0);
    assert_eq!(from_bits(calculate_average(&bits(&[]))), 0.0);

    // NaN handling
    assert_eq!(from_bits(calculate_average(&bits(&[1.0, 2.0, f64::NAN, 3.0]))), 2.0);
    assert_eq!(from_bits(calculate_average(&bits(&[f64::NAN, f64::NAN]))), 0.0);
    assert_eq!(from_bits(calculate_average(&bits(&[f64::INFINITY, 1.0, 2.0]))), 1.5);
}

#[test]
fn test_calculate_median() {
    let values = bits(&[1.0, 2.0, 3.0]);
    assert_eq!(calculate_median(&values).map(from_bits), Some(2.0));

    let values = bits(&[1.0, 2.0, 3.0, 4.0]);
    assert_eq!(calculate_median(&values).map(from_bits), Some(2.5));

    let empty: Vec<u64> = vec![];
    assert_eq!(calculate_median(&empty).map(from_bits), None);

    // NaN handling
    let values = bits(&[1.0, 2.0, f64::NAN, 3.0, 4.0]);
    assert_eq!(calculate_median(&values).map(from_bits), Some(2.5));

    // all NaN values
    let values = bits(&[f64::NAN, f64::NAN]);
    assert_eq!(calculate_median(&values).map(from_bits), None);

    // infinity
    let values = bits(&[1.0, 2.0, f64::INFINITY, 3.0]);
    assert_eq!(calculate_median(&values).map(from_bits), Some(2.0));
}

#[test]
fn test_calculate_variance() {
    // simple values
    let values = bits(&[2.0, 4.0, 4.0, 4.0, 5.0, 5.0, 7.0, 9.0]);
    let variance = from_bits(calculate_variance(&values).unwrap());
    assert!((variance - 4.0).abs() < 0.01);

    // single value
    let values = bits(&[5.0]);
    assert_eq!(calculate_variance(&values).map(from_bits), Some(0.0));

    // empty input
    let empty: Vec<u64> = vec![];
    assert_eq!(calculate_variance(&empty).map(from_bits), None);

    // identical values
    let values = bits(&[3.0, 3.0, 3.0, 3.0]);
    assert_eq!(calculate_variance(&values).map(from_bits), Some(0.0));

    // NaN handling
    let values = bits(&[2.0, 4.0, f64::NAN, 6.0]);
    let variance = from_bits(calculate_variance(&values).unwrap());
    assert!((variance - 2.67).abs() < 0.01); // variance of [2, 4, 6]
}

#[test]
fn test_calculate_std_deviation() {
    // simple values
    let values = bits(&[2.0, 4.0, 4.0, 4.0, 5.0, 5.0, 7.0, 9.0]);
    let std_dev = from_bits(calculate_std_deviation(&values).unwrap());
    assert!((std_dev - 2.0).abs() < 0.01);

    // single value
    let values = bits(&[5.0]);
    assert_eq!(calculate_std_deviation(&values).map(from_bits), Some(0.0));

    // empty input
    let empty: Vec<u64> = vec![];
    assert_eq!(calculate_std_deviation(&empty).map(from_bits), None);

    // identical values
    let values = bits(&[3.0, 3.0, 3.0, 3.0]);
    assert_eq!(calculate_std_deviation(&values).map(from_bits), Some(0.0));
}

#[test]
fn test_find_min() {
    assert_eq!(find_min(&bits(&[3.0, 1.0, 4.0, 2.0])).map(from_bits), Some(1.0));
    assert_eq!(find_min(&bits(&[42.0])).map(from_bits), Some(42.0));
    assert_eq!(find_min(&bits(&[])).map(from_bits), None);
    assert_eq!(find_min(&bits(&[-5.0, 0.0, 5.0])).map(from_bits), Some(-5.0));
}

#[test]
fn test_find_max() {
    assert_eq!(find_max(&bits(&[3.0, 1.0, 4.0, 2.0])).map(from_bits), Some(4.0));
    assert_eq!(find_max(&bits(&[42.0])).map(from_bits), Some(42.0));
    assert_eq!(find_max(&bits(&[])).map(from_bits), None);
    assert_eq!(find_max(&bits(&[-5.0, 0.0, 5.0])).map(from_bits), Some(5.0));
}

#[test]
fn test_std_deviation_is_sqrt_of_variance() {
    let values = bits(&[1.5, 2.25, 8.0, -3.5, 0.25]);
    let variance = from_bits(calculate_variance(&values).unwrap());
    let std_dev = from_bits(calculate_std_deviation(&values).unwrap());
    assert_eq!(std_dev, variance.sqrt());
}

#[test]
fn test_extremum_functions_do_not_filter() {
    // Unlike the four filtering statistics, the extremum functions let
    // NaN and the infinities take part; a comparison with NaN is a tie
    // and the earlier entry stays.
    let values = bits(&[1.0, f64::INFINITY, 3.0]);
    assert_eq!(find_max(&values).map(from_bits), Some(f64::INFINITY));
    let values = bits(&[1.0, f64::NEG_INFINITY, 3.0]);
    assert_eq!(find_min(&values).map(from_bits), Some(f64::NEG_INFINITY));
    let values = bits(&[f64::NAN, 1.0]);
    assert!(find_min(&values).map(from_bits).unwrap().is_nan());
}

#[test]
fn test_average_rounds_like_hardware() {
    // 0.1 + 0.2 is not exactly 0.3 in binary64; the library must round
    // exactly as native doubles do.
    let values = bits(&[0.1, 0.2]);
    let expected = (0.1f64 + 0.2f64) / 2.0f64;
    assert_eq!(from_bits(calculate_average(&values)), expected);
    assert_eq!(calculate_average(&values), expected.to_bits());
}

#[test]
fn test_median_handles_negative_zero() {
    let values = bits(&[-0.0, 0.0, -0.0]);
    assert_eq!(calculate_median(&values).map(from_bits), Some(0.0));
}
