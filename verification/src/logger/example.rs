//! The loggers of the usual set-ups.
use vstd::prelude::*;
use std::path::PathBuf;
use super::{BuilderView, LogConfig, LogFormat, LogLevel, LogOutput, LogRotation, Logger};

verus! {

/// The default logger: info level, compact lines, standard output.
pub fn init_default_logger() -> (r: Logger)
    ensures
        r.config_view() == (LogConfig { level: LogLevel::Info, format: LogFormat::Compact, output: LogOutput::Stdout }),
{
    Logger::builder().level(LogLevel::Info).format(LogFormat::Compact).stdout().build()
}

/// The file logger: debug level, JSON lines, a file rolled daily.
pub fn init_file_logger(log_dir: PathBuf) -> (r: Logger)
    ensures
        r.config_view() == (LogConfig {
            level: LogLevel::Debug,
            format: LogFormat::Json,
            output: LogOutput::File { path: log_dir, rotation: LogRotation::Daily },
        }),
{
    Logger::builder().level(LogLevel::Debug).format(LogFormat::Json).file(log_dir, LogRotation::Daily).build()
}

/// The logger to both standard output and a file: info level, pretty
/// lines, the file rolled daily.
pub fn init_both_logger(log_dir: PathBuf) -> (r: Logger)
    ensures
        r.config_view() == (LogConfig {
            level: LogLevel::Info,
            format: LogFormat::Pretty,
            output: LogOutput::Both { path: log_dir, rotation: LogRotation::Daily },
        }),
{
    Logger::builder().level(LogLevel::Info).format(LogFormat::Pretty).both(log_dir, LogRotation::Daily).build()
}

/// A logger from a configuration given whole: trace level, JSON lines,
/// standard output.
pub fn init_custom_logger() -> (r: Logger)
    ensures
        r.config_view() == (LogConfig { level: LogLevel::Trace, format: LogFormat::Json, output: LogOutput::Stdout }),
{
    let config = LogConfig { level: LogLevel::Trace, format: LogFormat::Json, output: LogOutput::Stdout };
    Logger::new(config)
}

} // verus!
