use benchbencher::catalog::Pallets;
use benchbencher::node::ExecFailure;
use benchbencher::runner::{
    format_duration, format_duration_total, qualified_name, render_line, sort_measurements,
    sum_line, total_nanos, Measurement, Runner,
};

fn ms(n: u64) -> u64 {
    n * 1_000_000
}

fn sample_selection() -> Vec<benchbencher::catalog::Pallet> {
    Pallets::parse_listing("header\nfoo, bar\nfoo, baz\nqux, quux\n")
        .filtered(None, None)
        .unwrap()
}

#[test]
fn runner_walks_units_in_order() {
    let mut r = Runner::new(&sample_selection());
    assert_eq!(r.total_units(), 3);
    let expected = [("foo", "bar"), ("foo", "baz"), ("qux", "quux")];
    for (cat, unit) in expected {
        assert!(!r.finished());
        let (c, u) = r.next_unit().unwrap();
        assert_eq!((c.as_str(), u.as_str()), (cat, unit));
        r.record(true, &Vec::new(), "exit status: 0".to_string(), String::new(), ms(1))
            .unwrap();
    }
    assert!(r.finished());
    assert!(r.next_unit().is_none());
    assert_eq!(r.results.len(), 3);
    assert_eq!(r.results[0].name, "foo/bar");
    assert_eq!(r.results[2].name, "qux/quux");
}

#[test]
fn failing_unit_aborts_and_names_the_unit() {
    let sel = Pallets::parse_listing("header\nfoo, bar\n")
        .filtered(None, None)
        .unwrap();
    let mut r = Runner::new(&sel);
    let err = r
        .record(
            false,
            &Vec::new(),
            "exit status: 1".to_string(),
            "boom".to_string(),
            ms(1),
        )
        .unwrap_err();
    assert_eq!(err.name, "foo/bar");
    assert_eq!(err.failure, ExecFailure::NonZeroStatus);
    assert_eq!(
        err.message(),
        "Failed to execute: foo/bar: Benchmark returned non zero exit status: \
         exit status: 1. stderr:\nboom"
    );
    // The run did not advance: no measurement was collected.
    assert_eq!(r.results.len(), 0);
    assert!(!r.finished());
}

#[test]
fn stdout_output_violates_the_contract() {
    let sel = Pallets::parse_listing("header\nfoo, bar\n")
        .filtered(None, None)
        .unwrap();
    let mut r = Runner::new(&sel);
    let err = r
        .record(
            true,
            &vec![b'x'],
            "exit status: 0".to_string(),
            String::new(),
            ms(1),
        )
        .unwrap_err();
    assert_eq!(err.failure, ExecFailure::UnexpectedStdout);
    assert_eq!(
        err.message(),
        "Failed to execute: foo/bar: Stdout should never return anything \
         (it is directed to /dev/null)"
    );
}

#[test]
fn sorts_by_duration_descending() {
    let results = vec![
        Measurement { name: "a".to_string(), elapsed_nanos: ms(10) },
        Measurement { name: "b".to_string(), elapsed_nanos: ms(50) },
        Measurement { name: "c".to_string(), elapsed_nanos: ms(5) },
    ];
    let sorted = sort_measurements(&results);
    let order: Vec<&str> = sorted.iter().map(|m| m.name.as_str()).collect();
    assert_eq!(order, vec!["b", "a", "c"]);
    assert_eq!(total_nanos(&results), (ms(10) + ms(50) + ms(5)) as u128);
}

#[test]
fn equal_durations_keep_execution_order() {
    let results = vec![
        Measurement { name: "a".to_string(), elapsed_nanos: ms(7) },
        Measurement { name: "b".to_string(), elapsed_nanos: ms(9) },
        Measurement { name: "c".to_string(), elapsed_nanos: ms(7) },
        Measurement { name: "d".to_string(), elapsed_nanos: ms(7) },
    ];
    let sorted = sort_measurements(&results);
    let order: Vec<&str> = sorted.iter().map(|m| m.name.as_str()).collect();
    assert_eq!(order, vec!["b", "a", "c", "d"]);
}

#[test]
fn formats_durations_floored_to_milliseconds() {
    assert_eq!(format_duration(90_000_000_000), "1m 30s");
    assert_eq!(format_duration(90_500_999_999), "1m 30s 500ms");
    assert_eq!(format_duration(999_999), "0s");
    assert_eq!(format_duration(0), "0s");
    assert_eq!(format_duration_total(65_000_000), "65ms");
}

#[test]
fn renders_padded_report_lines() {
    assert_eq!(
        render_line("foo/bar", ms(10)),
        format!("{:<80}: {}", "foo/bar", "10ms")
    );
    assert_eq!(sum_line(ms(65) as u128), format!("{:<80}: {}", "Sum", "65ms"));
}

#[test]
fn qualifies_names_with_a_slash() {
    assert_eq!(qualified_name("foo", "bar"), "foo/bar");
}
