use staticmap_builder::Hist;

#[test]
fn average_and_report_of_recorded_values() {
    let mut h = Hist::new();
    for v in [0u32, 0, 3, 3, 3] {
        h.insert(v);
    }
    let w = h.weighted_sum().unwrap();
    let c = h.count_sum().unwrap();
    assert_eq!(w, 9);
    assert_eq!(c, 5);
    assert_eq!(w as f32 / c as f32, 1.8);
    // Buckets after the first nonzero count are included verbatim, zero
    // counts among them.
    assert_eq!(h.report(), "0 => 2, 1 => 0, 2 => 0, 3 => 3, ");
}

#[test]
fn report_suppresses_leading_zero_buckets() {
    let mut h = Hist::new();
    h.insert(2);
    h.insert(2);
    assert_eq!(h.report(), "2 => 2, ");
}

#[test]
fn report_includes_trailing_zero_buckets() {
    let mut h = Hist::new();
    h.insert(1);
    h.insert(3);
    assert_eq!(h.report(), "1 => 1, 2 => 0, 3 => 1, ");
}

#[test]
fn growth_zero_extends_up_to_new_index() {
    let mut h = Hist::new();
    h.insert(5);
    assert_eq!(h.len(), 6);
    for i in 0..5 {
        assert_eq!(h.count_at(i), 0);
    }
    assert_eq!(h.count_at(5), 1);
}

#[test]
fn empty_histogram_average_is_nan_not_a_failure() {
    let h = Hist::new();
    assert_eq!(h.weighted_sum(), Some(0));
    assert_eq!(h.count_sum(), Some(0));
    let avg = h.weighted_sum().unwrap() as f32 / h.count_sum().unwrap() as f32;
    assert!(avg.is_nan());
}

#[test]
fn empty_histogram_report_is_empty() {
    let h = Hist::new();
    assert_eq!(h.report(), "");
}

#[test]
fn repeated_values_bump_one_bucket() {
    let mut h = Hist::new();
    h.insert(0);
    h.insert(0);
    h.insert(0);
    assert_eq!(h.len(), 1);
    assert_eq!(h.count_at(0), 3);
    assert_eq!(h.report(), "0 => 3, ");
}
