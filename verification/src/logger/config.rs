//! Logger configuration: level, format and output.
use vstd::prelude::*;
use std::path::PathBuf;
use crate::text::{ascii_lowercase, lower_text, string_eq};
use super::LogRotation;

verus! {

/// Level, format and output of a logger.
#[derive(Debug)]
pub struct LogConfig {
    pub level: LogLevel,
    pub format: LogFormat,
    pub output: LogOutput,
}

impl Default for LogConfig {
    fn default() -> (r: Self)
        ensures
            r == (LogConfig { level: LogLevel::Info, format: LogFormat::Compact, output: LogOutput::Stdout }),
    {
        LogConfig { level: LogLevel::Info, format: LogFormat::Compact, output: LogOutput::Stdout }
    }
}

/// Severity levels, least severe first.
#[derive(Debug, Clone, Copy, PartialEq, Eq, PartialOrd, Ord)]
pub enum LogLevel {
    Trace,
    Debug,
    Info,
    Warn,
    Error,
}

/// The level a lower-cased name names (`warning` too names the warn level).
pub open spec fn level_named(t: Seq<char>) -> Option<LogLevel> {
    if t == "trace"@ {
        Some(LogLevel::Trace)
    } else if t == "debug"@ {
        Some(LogLevel::Debug)
    } else if t == "info"@ {
        Some(LogLevel::Info)
    } else if t == "warn"@ || t == "warning"@ {
        Some(LogLevel::Warn)
    } else if t == "error"@ {
        Some(LogLevel::Error)
    } else {
        None
    }
}

/// The name of a level.
pub open spec fn level_name(l: LogLevel) -> Seq<char> {
    match l {
        LogLevel::Trace => "trace"@,
        LogLevel::Debug => "debug"@,
        LogLevel::Info => "info"@,
        LogLevel::Warn => "warn"@,
        LogLevel::Error => "error"@,
    }
}

/// Whether `s` is the text of the literal `lit`.
fn is_text(s: &String, lit: &str) -> (r: bool)
    ensures
        r == (s@ == lit@),
{
    let t = String::from_str(lit);
    string_eq(s, &t)
}

impl LogLevel {
    /// The level a name names, ignoring ASCII case.  (Unicode lower-casing
    /// gives the same answer: the only other letter that lower-cases into
    /// ASCII is the Kelvin sign, and no name holds a `k`.)
    pub fn from_str(s: &str) -> (r: Option<Self>)
        ensures
            r == level_named(lower_text(s@)),
    {
        let t = ascii_lowercase(s);
        if is_text(&t, "trace") {
            Some(LogLevel::Trace)
        } else if is_text(&t, "debug") {
            Some(LogLevel::Debug)
        } else if is_text(&t, "info") {
            Some(LogLevel::Info)
        } else if is_text(&t, "warn") || is_text(&t, "warning") {
            Some(LogLevel::Warn)
        } else if is_text(&t, "error") {
            Some(LogLevel::Error)
        } else {
            None
        }
    }

    /// The name of the level.
    pub fn as_str(&self) -> (r: &'static str)
        ensures
            r@ == level_name(*self),
    {
        match self {
            LogLevel::Trace => "trace",
            LogLevel::Debug => "debug",
            LogLevel::Info => "info",
            LogLevel::Warn => "warn",
            LogLevel::Error => "error",
        }
    }
}

/// A level's name reads back as that level, and so does the name in any
/// mix of cases.
pub proof fn lemma_level_name_roundtrip(l: LogLevel)
    ensures
        level_named(lower_text(level_name(l))) == Some(l),
{
    reveal_strlit("trace");
    reveal_strlit("debug");
    reveal_strlit("info");
    reveal_strlit("warn");
    reveal_strlit("warning");
    reveal_strlit("error");
    let n = level_name(l);
    assert(lower_text(n) =~= n);
    assert("trace"@[0] != "debug"@[0] && "trace"@[0] != "error"@[0] && "debug"@[0] != "error"@[0]);
    assert("info"@.len() != "trace"@.len() && "warn"@.len() != "trace"@.len());
    assert("info"@[0] != "warn"@[0]);
    assert("warning"@.len() != "trace"@.len() && "warning"@.len() != "info"@.len());
}

/// A lower-cased name names the level `l` exactly when it is the name of
/// `l`, or `warning` for the warn level.
pub proof fn lemma_level_named_iff(t: Seq<char>, l: LogLevel)
    ensures
        level_named(t) == Some(l) <==> t == level_name(l) || (l == LogLevel::Warn && t == "warning"@),
{
    reveal_strlit("trace");
    reveal_strlit("debug");
    reveal_strlit("info");
    reveal_strlit("warn");
    reveal_strlit("warning");
    reveal_strlit("error");
    assert("trace"@[0] != "debug"@[0] && "trace"@[0] != "error"@[0] && "debug"@[0] != "error"@[0]);
    assert("info"@.len() != "trace"@.len() && "warn"@.len() != "trace"@.len());
    assert("info"@[0] != "warn"@[0]);
    assert("warning"@.len() != "trace"@.len() && "warning"@.len() != "info"@.len());
}

/// How log lines are written.
#[derive(Debug, Clone, Copy, PartialEq, Eq)]
pub enum LogFormat {
    Json,
    Pretty,
    Compact,
}

/// The format a lower-cased name names.
pub open spec fn format_named(t: Seq<char>) -> Option<LogFormat> {
    if t == "json"@ {
        Some(LogFormat::Json)
    } else if t == "pretty"@ {
        Some(LogFormat::Pretty)
    } else if t == "compact"@ {
        Some(LogFormat::Compact)
    } else {
        None
    }
}

impl LogFormat {
    /// The format a name names, ignoring ASCII case (as Unicode
    /// lower-casing would, for these names).
    pub fn from_str(s: &str) -> (r: Option<Self>)
        ensures
            r == format_named(lower_text(s@)),
    {
        let t = ascii_lowercase(s);
        if is_text(&t, "json") {
            Some(LogFormat::Json)
        } else if is_text(&t, "pretty") {
            Some(LogFormat::Pretty)
        } else if is_text(&t, "compact") {
            Some(LogFormat::Compact)
        } else {
            None
        }
    }
}

/// Where log lines go.
#[derive(Debug)]
pub enum LogOutput {
    Stdout,
    File { path: PathBuf, rotation: LogRotation },
    Both { path: PathBuf, rotation: LogRotation },
}

} // verus!
