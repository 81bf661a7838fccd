//! Logging: the logger's configuration and its builder, log rotation
//! decisions, log file listing, and write-ahead-log recovery.
use vstd::prelude::*;
use std::path::PathBuf;
use crate::text::{push_decimal_u64, string_push_str};

pub mod config;
pub mod example;
pub mod rotation;
pub mod reader;
pub mod recovery;

pub use config::{LogConfig, LogFormat, LogLevel, LogOutput};
pub use reader::{select_log_names, LogReader};
pub use recovery::{LogEntry, RecoveryState};

verus! {

/// How a log file is rolled over.
#[derive(Debug, Clone, Copy, PartialEq, Eq)]
pub enum LogRotation {
    Hourly,
    Daily,
    Never,
    SizeBased { max_size_mb: u64 },
}

/// Errors of logger set-up.
#[derive(Debug, Clone, PartialEq, Eq)]
pub enum LogError {
    /// An I/O error, by its message.
    Io(String),
    InvalidPath(String),
    UnsupportedRotation(String),
    AlreadyInitialized,
}

/// The rolling schedule a file appender is set up with.
#[derive(Debug, Clone, Copy, PartialEq, Eq)]
pub enum RollingKind {
    Hourly,
    Daily,
    Never,
}

/// A logger: its configuration, to be installed.
#[derive(Debug)]
pub struct Logger {
    config: LogConfig,
}

impl Logger {
    /// The configuration the logger was made with.
    pub closed spec fn config_view(&self) -> LogConfig {
        self.config
    }

    /// A logger with this configuration.
    pub fn new(config: LogConfig) -> (r: Self)
        ensures
            r.config_view() == config,
    {
        Logger { config }
    }

    /// A builder with nothing chosen yet.
    pub fn builder() -> (r: LoggerBuilder)
        ensures
            r@ == (BuilderView { level: None, format: None, output: None }),
    {
        LoggerBuilder::default()
    }

    /// The configuration.
    pub fn config(&self) -> (r: &LogConfig)
        ensures
            *r == self.config_view(),
    {
        &self.config
    }

    /// The rolling schedule of a file appender for a rotation; size-based
    /// rotation has no such schedule and is refused.
    pub fn rolling_kind(rotation: &LogRotation) -> (r: Result<RollingKind, LogError>)
        ensures
            match *rotation {
                LogRotation::Hourly => r == Ok::<RollingKind, LogError>(RollingKind::Hourly),
                LogRotation::Daily => r == Ok::<RollingKind, LogError>(RollingKind::Daily),
                LogRotation::Never => r == Ok::<RollingKind, LogError>(RollingKind::Never),
                LogRotation::SizeBased { max_size_mb } => r matches Err(LogError::UnsupportedRotation(m)) && m@
                    == "Size-based rotation ("@ + crate::text::decimal(max_size_mb as nat) + "MB) not yet implemented"@,
            },
    {
        match rotation {
            LogRotation::Hourly => Ok(RollingKind::Hourly),
            LogRotation::Daily => Ok(RollingKind::Daily),
            LogRotation::Never => Ok(RollingKind::Never),
            LogRotation::SizeBased { max_size_mb } => {
                let mut m = String::from_str("Size-based rotation (");
                push_decimal_u64(&mut m, *max_size_mb);
                string_push_str(&mut m, "MB) not yet implemented");
                Err(LogError::UnsupportedRotation(m))
            },
        }
    }
}

/// Builds a logger step by step; what is not chosen takes its default.
#[derive(Debug)]
pub struct LoggerBuilder {
    level: Option<LogLevel>,
    format: Option<LogFormat>,
    output: Option<LogOutput>,
}

/// Abstract builder: what has been chosen.
pub struct BuilderView {
    pub level: Option<LogLevel>,
    pub format: Option<LogFormat>,
    pub output: Option<LogOutput>,
}

impl View for LoggerBuilder {
    type V = BuilderView;

    closed spec fn view(&self) -> BuilderView {
        BuilderView { level: self.level, format: self.format, output: self.output }
    }
}

impl Default for LoggerBuilder {
    fn default() -> (r: Self)
        ensures
            r@ == (BuilderView { level: None, format: None, output: None }),
    {
        LoggerBuilder { level: None, format: None, output: None }
    }
}

impl LoggerBuilder {
    /// Chooses the level.
    pub fn level(self, level: LogLevel) -> (r: Self)
        ensures
            r@ == (BuilderView { level: Some(level), ..self@ }),
    {
        LoggerBuilder { level: Some(level), ..self }
    }

    /// Chooses the format.
    pub fn format(self, format: LogFormat) -> (r: Self)
        ensures
            r@ == (BuilderView { format: Some(format), ..self@ }),
    {
        LoggerBuilder { format: Some(format), ..self }
    }

    /// Chooses the output.
    pub fn output(self, output: LogOutput) -> (r: Self)
        ensures
            r@ == (BuilderView { output: Some(output), ..self@ }),
    {
        LoggerBuilder { output: Some(output), ..self }
    }

    /// Chooses standard output.
    pub fn stdout(self) -> (r: Self)
        ensures
            r@ == (BuilderView { output: Some(LogOutput::Stdout), ..self@ }),
    {
        self.output(LogOutput::Stdout)
    }

    /// Chooses a file with a rotation.
    pub fn file(self, path: PathBuf, rotation: LogRotation) -> (r: Self)
        ensures
            r@ == (BuilderView { output: Some(LogOutput::File { path, rotation }), ..self@ }),
    {
        self.output(LogOutput::File { path, rotation })
    }

    /// Chooses both standard output and a file with a rotation.
    pub fn both(self, path: PathBuf, rotation: LogRotation) -> (r: Self)
        ensures
            r@ == (BuilderView { output: Some(LogOutput::Both { path, rotation }), ..self@ }),
    {
        self.output(LogOutput::Both { path, rotation })
    }

    /// The logger: the chosen level, format and output, or info, compact
    /// and standard output.
    pub fn build(self) -> (r: Logger)
        ensures
            r.config_view() == (LogConfig {
                level: match self@.level {
                    Some(l) => l,
                    None => LogLevel::Info,
                },
                format: match self@.format {
                    Some(f) => f,
                    None => LogFormat::Compact,
                },
                output: match self@.output {
                    Some(o) => o,
                    None => LogOutput::Stdout,
                },
            }),
    {
        let level = match self.level {
            Some(l) => l,
            None => LogLevel::Info,
        };
        let format = match self.format {
            Some(f) => f,
            None => LogFormat::Compact,
        };
        let output = match self.output {
            Some(o) => o,
            None => LogOutput::Stdout,
        };
        Logger::new(LogConfig { level, format, output })
    }
}

} // verus!
