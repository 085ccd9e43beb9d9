use reuse_trace::hist::Hist;

#[test]
fn hist_empty() {
    let h = Hist::new();
    let v = h.to_vec();
    assert!(v.is_empty(), "Expected an empty vector, got {:?}", v);
    let display = h.to_string();
    assert_eq!(display, "Reuse distance histogram is empty\n", "Unexpected output from Display implementation: {}", display);
}

#[test]
fn hist_basic_operations() {
    let mut h = Hist::new();
    h.add_dist(None);
    h.add_dist(Some(1));
    h.add_dist(Some(1));
    h.add_dist(Some(100));

    // ascending by distance, the cold bucket last
    let v = h.to_vec();
    assert_eq!(v[0], (Some(1), 2));
    assert_eq!(v[1], (Some(100), 1));
    assert_eq!(v[2], (None, 1));

    assert_eq!(h.to_string(), "Reuse distance histogram:\n\t3 distance value(s), min None, max Some(100)\n\t4 accesses\nvalue, count\n1, 2\n100, 1\nCold, 1\n");
}

#[test]
fn hist_get_counts() {
    let mut h = Hist::new();
    assert_eq!(h.get(Some(5)), None);
    h.add_dist(Some(5));
    h.add_dist(Some(5));
    h.add_dist(Some(3));
    assert_eq!(h.get(Some(5)), Some(2));
    assert_eq!(h.get(Some(3)), Some(1));
    assert_eq!(h.get(None), None);
    assert_eq!(h.len(), 2);
    assert_eq!(h.to_vec(), vec![(Some(3), 1), (Some(5), 2)]);
}

#[test]
fn hist_render_without_cold_bucket() {
    let mut h = Hist::new();
    h.add_dist(Some(7));
    h.add_dist(Some(12));
    assert_eq!(h.to_string(), "Reuse distance histogram:\n\t2 distance value(s), min Some(7), max Some(12)\n\t2 accesses\nvalue, count\n7, 1\n12, 1\n");
}
