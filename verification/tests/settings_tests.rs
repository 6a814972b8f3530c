use halt::settings::{settings_from, InvalidSetting};

fn text(s: &str) -> Option<String> {
    Some(s.to_string())
}

#[test]
fn settings_take_their_defaults() {
    let s = settings_from(None, None, None, None).unwrap();
    assert_eq!(s.circuit_threshold, 5);
    assert_eq!(s.circuit_window_seconds, 30);
    assert_eq!(s.queue_capacity, 1000);
    assert_eq!(s.database_path, None);
}

#[test]
fn settings_read_given_values() {
    let s = settings_from(text("12"), text("-45"), text("+250"), text("/var/halt.db")).unwrap();
    assert_eq!(s.circuit_threshold, 12);
    assert_eq!(s.circuit_window_seconds, -45);
    assert_eq!(s.queue_capacity, 250);
    assert_eq!(s.database_path, Some("/var/halt.db".to_string()));
}

#[test]
fn settings_accept_the_extremes_of_their_types() {
    let s = settings_from(text("0"), text("-9223372036854775808"), text("007"), None).unwrap();
    assert_eq!(s.circuit_threshold, 0);
    assert_eq!(s.circuit_window_seconds, i64::MIN);
    assert_eq!(s.queue_capacity, 7);
    let s = settings_from(None, text("9223372036854775807"), None, None).unwrap();
    assert_eq!(s.circuit_window_seconds, i64::MAX);
    let max = usize::MAX.to_string();
    let s = settings_from(Some(max.clone()), None, Some(max), None).unwrap();
    assert_eq!(s.circuit_threshold, usize::MAX);
    assert_eq!(s.queue_capacity, usize::MAX);
}

#[test]
fn settings_refuse_malformed_numbers() {
    for bad in ["", "+", "-", "abc", "5 ", " 5", "1_000", "-3", "+-3", "3.5"] {
        let e = settings_from(text(bad), None, None, None).err().unwrap();
        assert_eq!(e, InvalidSetting::CircuitThreshold);
        assert_eq!(e.variable(), "HALT_CIRCUIT_THRESHOLD");
    }
    for bad in ["", "-", "--1", "-+1", "x"] {
        let e = settings_from(None, text(bad), None, None).err().unwrap();
        assert_eq!(e, InvalidSetting::CircuitWindowSeconds);
        assert_eq!(e.variable(), "HALT_CIRCUIT_WINDOW_SECONDS");
    }
    let e = settings_from(None, None, text("ten"), None).err().unwrap();
    assert_eq!(e, InvalidSetting::QueueCapacity);
    assert_eq!(e.variable(), "HALT_QUEUE_CAPACITY");
}

#[test]
fn settings_refuse_numbers_out_of_range() {
    let e = settings_from(None, text("9223372036854775808"), None, None).err().unwrap();
    assert_eq!(e, InvalidSetting::CircuitWindowSeconds);
    let e = settings_from(None, text("-9223372036854775809"), None, None).err().unwrap();
    assert_eq!(e, InvalidSetting::CircuitWindowSeconds);
    let e = settings_from(None, None, text("99999999999999999999999"), None).err().unwrap();
    assert_eq!(e, InvalidSetting::QueueCapacity);
}

#[test]
fn settings_report_the_first_bad_variable() {
    let e = settings_from(text("x"), text("y"), text("z"), None).err().unwrap();
    assert_eq!(e, InvalidSetting::CircuitThreshold);
    let e = settings_from(text("1"), text("y"), text("z"), None).err().unwrap();
    assert_eq!(e, InvalidSetting::CircuitWindowSeconds);
}
