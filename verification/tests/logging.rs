use fix_engine::log::LogLevel;
use fix_engine::log::Logger;
use fix_engine::log::format_time;

#[test]
fn format_time_exact_values() {
    assert_eq!(format_time(0), "00:00:00.000");
    assert_eq!(format_time(1_000), "00:00:01.000");
    assert_eq!(format_time(61_001), "00:01:01.001");
    assert_eq!(format_time(3_600_000), "01:00:00.000");
    // 99 hours, 59 minutes, 59 seconds, 999 milliseconds
    assert_eq!(format_time(359_999_999), "99:59:59.999");
    // hours widen past two digits
    assert_eq!(format_time(360_000_000), "100:00:00.000");
}

#[test]
fn log_renders_one_line() {
    let logger = Logger::new(LogLevel::Debug);
    let line = logger
        .log(LogLevel::Info, "hello there", "engine::orderbook", 61_001)
        .unwrap();
    assert_eq!(line, "00:01:01.001 [INFO ] orderbook - hello there");
}

#[test]
fn log_filters_below_threshold() {
    let logger = Logger::new(LogLevel::Warn);
    assert!(logger.log(LogLevel::Debug, "x", "a::b", 0).is_none());
    assert!(logger.log(LogLevel::Info, "x", "a::b", 0).is_none());
    assert!(logger.log(LogLevel::Warn, "x", "a::b", 0).is_some());
    assert!(logger.log(LogLevel::Error, "x", "a::b", 0).is_some());
}

#[test]
fn log_keeps_plain_module_names() {
    let logger = Logger::new(LogLevel::Debug);
    let line = logger.log(LogLevel::Error, "boom", "main", 0).unwrap();
    assert_eq!(line, "00:00:00.000 [ERROR] main - boom");
}
