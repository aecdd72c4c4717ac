use is_bimodal::histogram::{bin_total, min_value, non_zero_min};

#[test]
fn test_non_zero_min() {
    assert_eq!(non_zero_min(&[0, 3, 0, 2, 5]), Some(2));
    assert_eq!(non_zero_min(&[7]), Some(7));
    assert_eq!(non_zero_min(&[0, 0, 0]), None);
    assert_eq!(non_zero_min(&[]), None);
    assert_eq!(non_zero_min(&[0, u32::MAX]), Some(u32::MAX));
    assert_eq!(non_zero_min(&[u32::MAX, 7, u32::MAX]), Some(7));
}

#[test]
fn test_bin_total() {
    assert_eq!(bin_total(&[30, 40, 210, 130, 530, 50, 10]), 1000);
    assert_eq!(bin_total(&[]), 0);
    assert_eq!(bin_total(&[u32::MAX, u32::MAX]), 2 * u32::MAX as u64);
}

#[test]
fn test_min_value() {
    assert_eq!(min_value(&[30, 40, 210, 130, 530, 50, 10]), 10);
    assert_eq!(min_value(&[5]), 5);
    assert_eq!(min_value(&[3, 0, 3]), 0);
}
