use ironbase_core::logging::LogLevel;

#[test]
fn test_log_level_ordering() {
    assert!(LogLevel::Error < LogLevel::Warn);
    assert!(LogLevel::Warn < LogLevel::Info);
    assert!(LogLevel::Info < LogLevel::Debug);
    assert!(LogLevel::Debug < LogLevel::Trace);
}

#[test]
fn test_log_level_equality() {
    assert_eq!(LogLevel::Error, LogLevel::Error);
    assert_eq!(LogLevel::Warn, LogLevel::Warn);
    assert_eq!(LogLevel::Info, LogLevel::Info);
    assert_eq!(LogLevel::Debug, LogLevel::Debug);
    assert_eq!(LogLevel::Trace, LogLevel::Trace);
}

#[test]
fn test_log_level_parsing() {
    assert_eq!(LogLevel::from_str("ERROR"), Some(LogLevel::Error));
    assert_eq!(LogLevel::from_str("warn"), Some(LogLevel::Warn));
    assert_eq!(LogLevel::from_str("DeBuG"), Some(LogLevel::Debug));
    assert_eq!(LogLevel::from_str("invalid"), None);
}

#[test]
fn test_log_level_parsing_all_levels() {
    assert_eq!(LogLevel::from_str("ERROR"), Some(LogLevel::Error));
    assert_eq!(LogLevel::from_str("WARN"), Some(LogLevel::Warn));
    assert_eq!(LogLevel::from_str("INFO"), Some(LogLevel::Info));
    assert_eq!(LogLevel::from_str("DEBUG"), Some(LogLevel::Debug));
    assert_eq!(LogLevel::from_str("TRACE"), Some(LogLevel::Trace));
}

#[test]
fn test_log_level_as_str() {
    assert_eq!(LogLevel::Error.as_str(), "ERROR");
    assert_eq!(LogLevel::Warn.as_str(), "WARN");
    assert_eq!(LogLevel::Info.as_str(), "INFO");
    assert_eq!(LogLevel::Debug.as_str(), "DEBUG");
    assert_eq!(LogLevel::Trace.as_str(), "TRACE");
}

#[test]
fn test_log_level_repr() {
    assert_eq!(LogLevel::Error as u8, 0);
    assert_eq!(LogLevel::Warn as u8, 1);
    assert_eq!(LogLevel::Info as u8, 2);
    assert_eq!(LogLevel::Debug as u8, 3);
    assert_eq!(LogLevel::Trace as u8, 4);
}

#[test]
fn log_level_name_parses_back() {
    for level in [LogLevel::Error, LogLevel::Warn, LogLevel::Info, LogLevel::Debug, LogLevel::Trace] {
        assert_eq!(LogLevel::from_str(level.as_str()), Some(level));
        assert_eq!(LogLevel::from_code(level.code()), level);
    }
    assert_eq!(LogLevel::from_code(9), LogLevel::Warn);
}

#[test]
fn log_level_enabled_at_configured_level() {
    let current = LogLevel::Info;
    assert!(LogLevel::Error.enabled_at(current));
    assert!(LogLevel::Warn.enabled_at(current));
    assert!(LogLevel::Info.enabled_at(current));
    assert!(!LogLevel::Debug.enabled_at(current));
    assert!(!LogLevel::Trace.enabled_at(current));
}
