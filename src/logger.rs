use vstd::prelude::*;
use vstd::string::*;

verus! {

/// Severity attached to every line a `Logger` produces.
#[derive(Clone, Copy, Debug, PartialEq, Eq, Structural)]
pub enum LogLevel {
    INFO,
    DEBUG,
    WARNING,
    ERROR,
}

/// The label of a level, as it appears between brackets in a log line.
pub open spec fn level_name(level: LogLevel) -> Seq<char> {
    match level {
        LogLevel::INFO => "INFO"@,
        LogLevel::DEBUG => "DEBUG"@,
        LogLevel::WARNING => "WARNING"@,
        LogLevel::ERROR => "ERROR"@,
    }
}

/// One log line: `<stamp> [<LEVEL>] - <description>` and a newline.
pub open spec fn entry_text(stamp: Seq<char>, level: LogLevel, description: Seq<char>) -> Seq<char> {
    stamp + " ["@ + level_name(level) + "] - "@ + description + "\n"@
}

/// The label of `level`.
pub fn inspect(level: LogLevel) -> (r: String)
    ensures
        r@ == level_name(level),
{
    match level {
        LogLevel::INFO => String::from_str("INFO"),
        LogLevel::DEBUG => String::from_str("DEBUG"),
        LogLevel::WARNING => String::from_str("WARNING"),
        LogLevel::ERROR => String::from_str("ERROR"),
    }
}

/// Relies on chrono::Local::now and chrono's `format`: the local wall-clock time of
/// the call written as `%Y-%m-%d %H:%M:%S`. It depends on the clock, so nothing is
/// promised of its text.
#[verifier::external_body]
fn local_timestamp() -> (r: String) {
    chrono::Local::now().format("%Y-%m-%d %H:%M:%S").to_string()
}

/// A very small line logger: a level and the path of the file the lines go to.
#[derive(Clone, Debug)]
pub struct Logger {
    level: LogLevel,
    path: String,
}

impl Logger {
    /// A logger for the file at `path`, at level `DEBUG`.
    pub fn new(path: &str) -> (r: Logger)
        ensures
            r.level() == LogLevel::DEBUG,
            r.path_view() == path@,
    {
        Logger { level: LogLevel::DEBUG, path: String::from_str(path) }
    }

    pub closed spec fn level(&self) -> LogLevel {
        self.level
    }

    pub closed spec fn path_view(&self) -> Seq<char> {
        self.path@
    }

    /// Sets the level of the lines written from now on.
    pub fn set_level(&mut self, l: LogLevel)
        ensures
            final(self).level() == l,
            final(self).path_view() == old(self).path_view(),
    {
        self.level = l;
    }

    /// The current level.
    pub fn get_level(&self) -> (r: LogLevel)
        ensures
            r == self.level(),
    {
        self.level
    }

    /// The path of the log file.
    pub fn path(&self) -> (r: &str)
        ensures
            r@ == self.path_view(),
    {
        self.path.as_str()
    }

    /// The line that describes `description` at the current level, stamped with `stamp`.
    pub fn format_entry(&self, stamp: &str, description: &str) -> (r: String)
        ensures
            r@ == entry_text(stamp@, self.level(), description@),
    {
        let mut s = String::from_str(stamp);
        s.append(" [");
        let label = inspect(self.level);
        s.append(label.as_str());
        s.append("] - ");
        s.append(description);
        s.append("\n");
        s
    }

    /// The line that describes `description` at the current level, stamped with the
    /// local time of the call.
    pub fn entry(&self, description: &str) -> (r: String)
        ensures
            exists|stamp: Seq<char>| r@ == entry_text(stamp, self.level(), description@),
    {
        let stamp = local_timestamp();
        self.format_entry(stamp.as_str(), description)
    }
}

} // verus!
