use parallel_viewshed_rust::config::{parse_count, AppConfig, DEFAULT_CHUNKS_PER_AXIS};

fn args(list: &[&str]) -> Vec<String> {
    list.iter().map(|s| s.to_string()).collect()
}

#[test]
fn defaults_when_no_arguments() {
    let c = AppConfig::build(args(&["prog"]));
    assert_eq!(c.file_path, "input.obj");
    assert_eq!(c.chunks_per_axis, 10);
    assert_eq!(c.threads_amount, None);
    let c = AppConfig::build(Vec::new());
    assert_eq!(c.file_path, "input.obj");
    assert_eq!(c.chunks_per_axis, DEFAULT_CHUNKS_PER_AXIS);
}

#[test]
fn reads_path_count_and_threads() {
    let c = AppConfig::build(args(&["prog", "terrain.obj", "4", "8"]));
    assert_eq!(c.file_path, "terrain.obj");
    assert_eq!(c.chunks_per_axis, 4);
    assert_eq!(c.threads_amount, Some(8));
}

#[test]
fn bad_counts_fall_back_to_defaults() {
    for bad in ["0", "abc", "", "-3", "+", "4x", "99999999999999999999999", "٣"] {
        let c = AppConfig::build(args(&["prog", "a.obj", bad, bad]));
        assert_eq!(c.chunks_per_axis, 10, "count {:?}", bad);
        assert_eq!(c.threads_amount, None, "threads {:?}", bad);
    }
    let c = AppConfig::build(args(&["prog", "a.obj", "+7"]));
    assert_eq!(c.chunks_per_axis, 7);
}

#[test]
fn parse_count_reads_decimal_numbers() {
    assert_eq!(parse_count(&"0".to_string()), Some(0));
    assert_eq!(parse_count(&"0042".to_string()), Some(42));
    assert_eq!(parse_count(&"+15".to_string()), Some(15));
    assert_eq!(parse_count(&usize::MAX.to_string()), Some(usize::MAX));
    assert_eq!(parse_count(&"18446744073709551616".to_string()), None);
    assert_eq!(parse_count(&" 1".to_string()), None);
    assert_eq!(parse_count(&"1.5".to_string()), None);
    for s in ["", "+", "-1", "12a", "١"] {
        assert_eq!(parse_count(&s.to_string()), s.parse::<usize>().ok(), "{:?}", s);
    }
}
