//! The log-level filter: a message is emitted exactly when its level is at
//! or below the configured threshold.

use goud_compressor::config::{should_log, LogLevel};

#[test]
fn threshold_off_silences_everything_above() {
    assert!(!should_log(LogLevel::Error, LogLevel::Off));
    assert!(!should_log(LogLevel::Performance, LogLevel::Off));
    assert!(should_log(LogLevel::Off, LogLevel::Off));
}

#[test]
fn levels_are_ordered() {
    assert!(should_log(LogLevel::Error, LogLevel::Error));
    assert!(should_log(LogLevel::Error, LogLevel::Info));
    assert!(should_log(LogLevel::Info, LogLevel::Performance));
    assert!(!should_log(LogLevel::Debug, LogLevel::Info));
    assert!(!should_log(LogLevel::Performance, LogLevel::Debug));
}
