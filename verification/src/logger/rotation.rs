//! Rotation of log files: when a file is rolled over, what the rolled files
//! are named, and which files belong to a log.
use vstd::prelude::*;
use crate::text::{
    decimal, ends_with, push_decimal_u64, push_zero_padded, starts_with, string_push, string_push_str,
    text_ends_with, text_starts_with, zero_padded,
};

verus! {

/// How a rotating writer rolls its files, and whether it compresses the
/// rolled ones.
#[derive(Debug, Clone, PartialEq, Eq)]
pub enum LogRotation {
    Hourly { compress: bool },
    Daily { compress: bool },
    LineBased { max_lines: usize, compress: bool },
    SizeBased { max_size_mb: u64, compress: bool },
    Never,
}

impl LogRotation {
    /// Whether rolled files are compressed.
    pub fn should_compress(&self) -> (r: bool)
        ensures
            r == match *self {
                LogRotation::Hourly { compress } => compress,
                LogRotation::Daily { compress } => compress,
                LogRotation::LineBased { compress, .. } => compress,
                LogRotation::SizeBased { compress, .. } => compress,
                LogRotation::Never => false,
            },
    {
        match self {
            LogRotation::Hourly { compress } => *compress,
            LogRotation::Daily { compress } => *compress,
            LogRotation::LineBased { compress, .. } => *compress,
            LogRotation::SizeBased { compress, .. } => *compress,
            LogRotation::Never => false,
        }
    }

    /// Whether the strategy is time-based.
    pub open spec fn is_timed(&self) -> bool {
        match *self {
            LogRotation::Hourly { .. } | LogRotation::Daily { .. } => true,
            _ => false,
        }
    }
}

/// What a rotating writer has written to its current file.
#[derive(Debug, Clone)]
pub struct RotationStats {
    pub current_lines: usize,
    pub current_size_bytes: usize,
    pub current_index: usize,
}

/// The hour or day (since the epoch) a file was opened in.
#[derive(Debug, Clone, Copy, PartialEq, Eq)]
pub struct TimeRotationBucket {
    pub hour: u32,
    pub day: u32,
}

impl TimeRotationBucket {
    /// The hourly bucket of a time in seconds since the epoch.
    pub fn hourly_at(secs: u64) -> (r: Self)
        ensures
            r == (TimeRotationBucket { hour: (secs / 3600) as u32, day: 0 }),
    {
        TimeRotationBucket { hour: (secs / 3600) as u32, day: 0 }
    }

    /// The daily bucket of a time in seconds since the epoch.
    pub fn daily_at(secs: u64) -> (r: Self)
        ensures
            r == (TimeRotationBucket { hour: 0, day: (secs / 86400) as u32 }),
    {
        TimeRotationBucket { hour: 0, day: (secs / 86400) as u32 }
    }

    /// The bucket of strategies that are not time-based.
    pub fn empty() -> (r: Self)
        ensures
            r == (TimeRotationBucket { hour: 0, day: 0 }),
    {
        TimeRotationBucket { hour: 0, day: 0 }
    }

    /// The bucket a strategy starts in at a time.
    pub fn initial(strategy: &LogRotation, secs: u64) -> (r: Self)
        ensures
            r == match *strategy {
                LogRotation::Hourly { .. } => TimeRotationBucket { hour: (secs / 3600) as u32, day: 0 },
                LogRotation::Daily { .. } => TimeRotationBucket { hour: 0, day: (secs / 86400) as u32 },
                _ => TimeRotationBucket { hour: 0, day: 0 },
            },
    {
        match strategy {
            LogRotation::Hourly { .. } => Self::hourly_at(secs),
            LogRotation::Daily { .. } => Self::daily_at(secs),
            _ => Self::empty(),
        }
    }
}

/// A size limit in megabytes that fits in bytes.
pub open spec fn size_limit_fits(strategy: LogRotation) -> bool {
    match strategy {
        LogRotation::SizeBased { max_size_mb, .. } => max_size_mb * 1048576 <= u64::MAX,
        _ => true,
    }
}

/// Whether the current file is due to be rolled over before the next line:
/// by lines or bytes against the limit, by a change of hour or day, never
/// for `Never`.
pub open spec fn rotation_due(
    strategy: LogRotation,
    lines: usize,
    size: usize,
    now: TimeRotationBucket,
    stored: TimeRotationBucket,
) -> bool {
    match strategy {
        LogRotation::LineBased { max_lines, .. } => lines >= max_lines,
        LogRotation::SizeBased { max_size_mb, .. } => size >= ((max_size_mb * 1048576) as u64) as usize,
        LogRotation::Hourly { .. } | LogRotation::Daily { .. } => now != stored,
        LogRotation::Never => false,
    }
}

/// A daily log rolls over exactly when the two times fall on different days,
/// and an hourly log exactly when they fall in different hours, whatever
/// the line and byte counts: the buckets are those `daily_at` and
/// `hourly_at` give, for times whose hour count fits the bucket.
pub proof fn lemma_timed_rotation_follows_the_clock(compress: bool, lines: usize, size: usize, t_now: u64, t_stored: u64)
    requires
        t_now / 3600 <= u32::MAX,
        t_stored / 3600 <= u32::MAX,
    ensures
        rotation_due(
            LogRotation::Daily { compress },
            lines,
            size,
            TimeRotationBucket { hour: 0, day: (t_now / 86400) as u32 },
            TimeRotationBucket { hour: 0, day: (t_stored / 86400) as u32 },
        ) <==> t_now / 86400 != t_stored / 86400,
        rotation_due(
            LogRotation::Hourly { compress },
            lines,
            size,
            TimeRotationBucket { hour: (t_now / 3600) as u32, day: 0 },
            TimeRotationBucket { hour: (t_stored / 3600) as u32, day: 0 },
        ) <==> t_now / 3600 != t_stored / 3600,
{
    assert(t_now / 86400 <= t_now / 3600) by (nonlinear_arith);
    assert(t_stored / 86400 <= t_stored / 3600) by (nonlinear_arith);
}

/// Decides whether to roll over (see `rotation_due`).  A size limit whose
/// byte count overflows is left out: its multiplication panics.
pub fn should_rotate(
    strategy: &LogRotation,
    lines: usize,
    size: usize,
    now: TimeRotationBucket,
    stored: TimeRotationBucket,
) -> (r: bool)
    requires
        size_limit_fits(*strategy),
    ensures
        r == rotation_due(*strategy, lines, size, now, stored),
{
    match strategy {
        LogRotation::LineBased { max_lines, .. } => lines >= *max_lines,
        LogRotation::SizeBased { max_size_mb, .. } => {
            let max_bytes = *max_size_mb * 1024 * 1024;
            size >= max_bytes as usize
        },
        LogRotation::Hourly { .. } | LogRotation::Daily { .. } => now.hour != stored.hour || now.day != stored.day,
        LogRotation::Never => false,
    }
}

/// The name of rolled file `index`: the stem, the opening time for the
/// time-based strategies, the index in four digits, and `.log`.
pub open spec fn rotated_name(strategy: LogRotation, stem: Seq<char>, timestamp: u64, index: usize) -> Seq<char> {
    if strategy.is_timed() {
        stem + seq!['.'] + decimal(timestamp as nat) + seq!['.'] + zero_padded(index as nat, 4) + ".log"@
    } else {
        stem + seq!['.'] + zero_padded(index as nat, 4) + ".log"@
    }
}

/// The name of rolled file `index` (see `rotated_name`).
pub fn rotated_file_name(strategy: &LogRotation, stem: &str, timestamp: u64, index: usize) -> (r: String)
    ensures
        r@ == rotated_name(*strategy, stem@, timestamp, index),
{
    let mut out = String::from_str(stem);
    string_push(&mut out, '.');
    match strategy {
        LogRotation::Hourly { .. } | LogRotation::Daily { .. } => {
            push_decimal_u64(&mut out, timestamp);
            string_push(&mut out, '.');
        },
        _ => {},
    }
    push_zero_padded(&mut out, index as u64, 4);
    string_push_str(&mut out, ".log");
    out
}

/// A file of the log: its name starts with the stem and ends in `.log` or
/// `.log.gz`.
pub open spec fn is_log_file_name(name: Seq<char>, stem: Seq<char>) -> bool {
    starts_with(name, stem) && (ends_with(name, ".log"@) || ends_with(name, ".log.gz"@))
}

/// Whether a file name belongs to the log of this stem.
pub fn log_file_name_matches(name: &str, stem: &str) -> (r: bool)
    ensures
        r == is_log_file_name(name@, stem@),
{
    let n = String::from_str(name);
    let s = String::from_str(stem);
    let log = String::from_str(".log");
    let gz = String::from_str(".log.gz");
    text_starts_with(&n, &s) && (text_ends_with(&n, &log) || text_ends_with(&n, &gz))
}

} // verus!
