use raytracing_in_rust::logger::{inspect, LogLevel, Logger};

#[test]
fn level_labels() {
    assert_eq!(inspect(LogLevel::INFO), "INFO");
    assert_eq!(inspect(LogLevel::DEBUG), "DEBUG");
    assert_eq!(inspect(LogLevel::WARNING), "WARNING");
    assert_eq!(inspect(LogLevel::ERROR), "ERROR");
}

#[test]
fn new_logger_starts_at_debug() {
    let l = Logger::new("log/log.log");
    assert_eq!(l.get_level(), LogLevel::DEBUG);
    assert_eq!(l.path(), "log/log.log");
}

#[test]
fn set_level_changes_the_label() {
    let mut l = Logger::new("x.log");
    l.set_level(LogLevel::ERROR);
    assert_eq!(l.get_level(), LogLevel::ERROR);
    assert_eq!(
        l.format_entry("2024-01-02 03:04:05", "disk full"),
        "2024-01-02 03:04:05 [ERROR] - disk full\n"
    );
}

#[test]
fn formatted_entry() {
    let l = Logger::new("x.log");
    assert_eq!(
        l.format_entry("2023-11-30 23:59:59", "Test random scene"),
        "2023-11-30 23:59:59 [DEBUG] - Test random scene\n"
    );
    assert_eq!(l.format_entry("", ""), " [DEBUG] - \n");
}

#[test]
fn stamped_entry_carries_a_local_time() {
    let mut l = Logger::new("x.log");
    l.set_level(LogLevel::INFO);
    let line = l.entry("Scene created successfully");
    assert!(line.ends_with(" [INFO] - Scene created successfully\n"));
    let stamp = &line[..line.len() - " [INFO] - Scene created successfully\n".len()];
    assert_eq!(stamp.len(), 19);
    assert_eq!(&stamp[4..5], "-");
    assert_eq!(&stamp[10..11], " ");
    assert_eq!(&stamp[13..14], ":");
}
