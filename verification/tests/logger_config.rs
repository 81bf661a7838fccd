use crv_core::logger::{select_log_names, LogLevel};

#[test]
fn level_names_read_back() {
    for l in [LogLevel::Trace, LogLevel::Debug, LogLevel::Info, LogLevel::Warn, LogLevel::Error] {
        assert_eq!(LogLevel::from_str(l.as_str()), Some(l));
        assert_eq!(LogLevel::from_str(&l.as_str().to_uppercase()), Some(l));
    }
    assert_eq!(LogLevel::from_str("WARNING"), Some(LogLevel::Warn));
    assert_eq!(LogLevel::from_str("verbose"), None);
}

#[test]
fn log_names_selected_and_sorted() {
    let names = vec![
        "app.log.2".to_string(),
        "other.txt".to_string(),
        "app.log".to_string(),
        "app.log.1.gz".to_string(),
    ];
    let r = select_log_names(&names, "app.log");
    assert_eq!(r, vec!["app.log".to_string(), "app.log.1.gz".to_string(), "app.log.2".to_string()]);
    assert!(select_log_names(&names, "nothing").is_empty());
}

#[test]
fn level_names_accept_warning_only_for_warn() {
    assert_eq!(LogLevel::from_str("Warning"), Some(LogLevel::Warn));
    assert_eq!(LogLevel::from_str("INFO"), Some(LogLevel::Info));
    assert_eq!(LogLevel::from_str("warnings"), None);
}
