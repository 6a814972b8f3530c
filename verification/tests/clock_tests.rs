use halt::clock::instant_from_parts;

#[test]
fn instants_from_clock_parts() {
    assert_eq!(instant_from_parts(0, 0), 0);
    assert_eq!(instant_from_parts(1_700_000_000, 5), 1_700_000_000_000_000_005);
    assert_eq!(instant_from_parts(-1, 999_999_999), -1);
    assert_eq!(instant_from_parts(i64::MAX, 999_999_999), (i64::MAX as i128 + 1) * 1_000_000_000 - 1);
    assert_eq!(instant_from_parts(i64::MIN, 0), i64::MIN as i128 * 1_000_000_000);
}

#[test]
fn instants_of_the_system_clock_run_forward() {
    let a = chrono::Utc::now();
    let b = chrono::Utc::now();
    let ta = instant_from_parts(a.timestamp(), a.timestamp_subsec_nanos());
    let tb = instant_from_parts(b.timestamp(), b.timestamp_subsec_nanos());
    assert!(ta > 1_577_836_800i128 * 1_000_000_000);
    assert!(tb >= ta);
}
