//! Log levels. The process-wide current level lives with the application;
//! the library decides what a level admits.
use vstd::prelude::*;
use crate::text::{str_eq, to_upper, uppercase};

verus! {

/// Log levels, from most to least severe.
#[derive(Debug, Clone, Copy, PartialEq, Eq, PartialOrd, Ord, Structural)]
pub enum LogLevel {
    /// Failures that stop an operation.
    Error,
    /// Problems that do not stop execution.
    Warn,
    /// High-level operational information.
    Info,
    /// Detailed diagnostics.
    Debug,
    /// Every operation.
    Trace,
}

/// Severity rank of a level: 0 for `Error` up to 4 for `Trace`.
pub open spec fn level_rank(l: LogLevel) -> int {
    match l {
        LogLevel::Error => 0,
        LogLevel::Warn => 1,
        LogLevel::Info => 2,
        LogLevel::Debug => 3,
        LogLevel::Trace => 4,
    }
}

/// The level an upper-cased name stands for.
pub open spec fn level_named(u: Seq<char>) -> Option<LogLevel> {
    if u == "ERROR"@ {
        Some(LogLevel::Error)
    } else if u == "WARN"@ {
        Some(LogLevel::Warn)
    } else if u == "INFO"@ {
        Some(LogLevel::Info)
    } else if u == "DEBUG"@ {
        Some(LogLevel::Debug)
    } else if u == "TRACE"@ {
        Some(LogLevel::Trace)
    } else {
        None
    }
}

/// Upper-case name of a level.
pub open spec fn level_name(l: LogLevel) -> Seq<char> {
    match l {
        LogLevel::Error => "ERROR"@,
        LogLevel::Warn => "WARN"@,
        LogLevel::Info => "INFO"@,
        LogLevel::Debug => "DEBUG"@,
        LogLevel::Trace => "TRACE"@,
    }
}

/// A level's name parses back to the level.
pub proof fn lemma_level_name_parses(l: LogLevel)
    ensures
        level_named(level_name(l)) == Some(l),
{
    reveal_strlit("ERROR");
    reveal_strlit("WARN");
    reveal_strlit("INFO");
    reveal_strlit("DEBUG");
    reveal_strlit("TRACE");
    // different lengths, or a different first letter
    assert("ERROR"@.len() != "WARN"@.len() && "ERROR"@.len() != "INFO"@.len());
    assert("ERROR"@[0] != "DEBUG"@[0] && "ERROR"@[0] != "TRACE"@[0] && "DEBUG"@[0] != "TRACE"@[0]);
    assert("WARN"@[0] != "INFO"@[0]);
    assert("WARN"@.len() != "DEBUG"@.len() && "WARN"@.len() != "TRACE"@.len());
    assert("INFO"@.len() != "DEBUG"@.len() && "INFO"@.len() != "TRACE"@.len());
}

impl LogLevel {
    /// Level of a name, case-insensitively (by Unicode upper case).
    pub fn from_str(s: &str) -> (r: Option<LogLevel>)
        ensures
            r == level_named(uppercase(s@)),
    {
        let u = to_upper(s);
        Self::from_upper(u.as_str())
    }

    /// Level of an upper-cased name.
    pub fn from_upper(u: &str) -> (r: Option<LogLevel>)
        ensures
            r == level_named(u@),
    {
        if str_eq(u, "ERROR") {
            Some(LogLevel::Error)
        } else if str_eq(u, "WARN") {
            Some(LogLevel::Warn)
        } else if str_eq(u, "INFO") {
            Some(LogLevel::Info)
        } else if str_eq(u, "DEBUG") {
            Some(LogLevel::Debug)
        } else if str_eq(u, "TRACE") {
            Some(LogLevel::Trace)
        } else {
            None
        }
    }

    /// Name of the level, upper case.
    pub fn as_str(&self) -> (s: &'static str)
        ensures
            s@ == level_name(*self),
    {
        match self {
            LogLevel::Error => "ERROR",
            LogLevel::Warn => "WARN",
            LogLevel::Info => "INFO",
            LogLevel::Debug => "DEBUG",
            LogLevel::Trace => "TRACE",
        }
    }

    /// Numeric code of the level (its rank).
    pub fn code(&self) -> (c: u8)
        ensures
            c as int == level_rank(*self),
    {
        match self {
            LogLevel::Error => 0,
            LogLevel::Warn => 1,
            LogLevel::Info => 2,
            LogLevel::Debug => 3,
            LogLevel::Trace => 4,
        }
    }

    /// Level of a numeric code; codes above 4 fall back to `Warn`.
    pub fn from_code(c: u8) -> (l: LogLevel)
        ensures
            c <= 4 ==> level_rank(l) == c as int,
            c > 4 ==> l == LogLevel::Warn,
    {
        match c {
            0 => LogLevel::Error,
            1 => LogLevel::Warn,
            2 => LogLevel::Info,
            3 => LogLevel::Debug,
            4 => LogLevel::Trace,
            _ => LogLevel::Warn,
        }
    }

    /// Whether a message at this level is logged when `current` is the
    /// configured level: it is at least as severe.
    pub fn enabled_at(&self, current: LogLevel) -> (r: bool)
        ensures
            r == (level_rank(*self) <= level_rank(current)),
    {
        self.code() <= current.code()
    }
}

} // verus!
