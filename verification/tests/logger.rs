use tipitaka_xml_parser::logger::{
    error, format_duration, info, info_with_options, profile, warn, Elapsed, LogPrecision, Logger,
    TimeLog,
};

#[test]
fn unit_strings() {
    assert_eq!(LogPrecision::Seconds.unit_str(), "s");
    assert_eq!(LogPrecision::Microseconds.unit_str(), "µs");
}

#[test]
fn durations_as_clock_time() {
    assert_eq!(format_duration(0), "00:00:00");
    assert_eq!(format_duration(3661), "01:01:01");
    assert_eq!(format_duration(360000), "100:00:00");
}

#[test]
fn message_prefixes() {
    assert_eq!(info("a").text, "INFO: a");
    assert!(!info("a").start_new);
    assert!(info_with_options("a", true).start_new);
    assert_eq!(warn("b").text, "WARN: b");
    assert_eq!(error("c").text, "ERROR: c");
    assert_eq!(profile("d", "1.5s").text, "PROFILE: d: 1.5s");
}

#[test]
fn time_log_lines() {
    let t = TimeLog::new(LogPrecision::Microseconds);
    let total = Elapsed { secs: 2, micros: 2_000_005 };
    let step = Elapsed { secs: 0, micros: 7 };
    assert_eq!(t.log("load_file", total, step), "2000005\t7\tload\\_file\n");
    let s = TimeLog::new(LogPrecision::Seconds);
    assert_eq!(
        s.log("a_very_long_message_that_goes_on_and_on", total, step),
        "2\t0\ta\\_very\\_long\\_message\\_that\\_goes\\_\n"
    );
}

#[test]
fn log_lines_have_timestamps() {
    let l = Logger::new(false, false, true);
    assert!(l.time_log.is_some());
    assert_eq!(l.log_line("INFO: x", "2024-01-01 00:00:00.000Z"), Some("[2024-01-01 00:00:00.000Z] INFO: x\n".to_string()));
    let off = Logger::new(true, false, false);
    assert_eq!(off.log_line("INFO: x", "t"), None);
}
