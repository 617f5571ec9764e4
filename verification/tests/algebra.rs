use scoresynth::soundprim::{delay, mult, pcm_encode, superpos};

#[test]
fn product_stops_at_shorter_input() {
    let x = vec![2, 3, 4];
    let y = vec![5, 6];
    assert_eq!(mult(&x, &y), vec![10, 18]);
    assert_eq!(mult(&y, &x), vec![10, 18]);
}

#[test]
fn superposition_extends_to_longer_input() {
    let x = vec![1, 2, 3];
    let y = vec![10];
    assert_eq!(superpos(&x, &y), vec![11, 2, 3]);
    assert_eq!(superpos(&y, &x), vec![11, 2, 3]);
}

#[test]
fn superposition_is_commutative_on_samples() {
    let x = vec![4, -2, 9, 0];
    let y = vec![-1, 7];
    assert_eq!(superpos(&x, &y), superpos(&y, &x));
}

#[test]
fn delay_prepends_silence() {
    let s = vec![7, -3];
    assert_eq!(delay(3, &s), vec![0, 0, 0, 7, -3]);
    assert_eq!(delay(0, &s), vec![7, -3]);
}

#[test]
fn pcm_encode_scales_and_truncates() {
    assert_eq!(pcm_encode(0, 1), 0);
    assert_eq!(pcm_encode(1, 1), 32767);
    assert_eq!(pcm_encode(-1, 1), -32767);
    // 32767 / 2 truncates toward zero, both ways.
    assert_eq!(pcm_encode(1, 2), 16383);
    assert_eq!(pcm_encode(-1, 2), -16383);
    assert_eq!(pcm_encode(1, 3), 10922);
}

#[test]
fn pcm_round_trip_loses_at_most_one_part() {
    for &(num, den) in &[(1i64, 2i64), (-1, 2), (1, 3), (2, 3), (-2, 3), (1, 7), (-6, 7), (1, 1)] {
        let e = pcm_encode(num, den) as f64;
        let back = e / 32767.0;
        let orig = num as f64 / den as f64;
        assert!((back - orig).abs() <= 1.0 / 32767.0, "{}/{} -> {}", num, den, e);
    }
}
