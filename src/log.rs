use vstd::prelude::*;

verus! {

/// Log verbosity, from `Never` (0) to `Trace` (6); later variants are more verbose.
#[derive(Clone, Copy, Debug, PartialEq, Eq, PartialOrd, Ord, Hash, Structural)]
pub enum LogLevel {
    Never,
    Fatal,
    Error,
    Warn,
    Info,
    Debug,
    Trace,
}

/// The numeric code of a level.
pub open spec fn level_code(l: LogLevel) -> u8 {
    match l {
        LogLevel::Never => 0,
        LogLevel::Fatal => 1,
        LogLevel::Error => 2,
        LogLevel::Warn => 3,
        LogLevel::Info => 4,
        LogLevel::Debug => 5,
        LogLevel::Trace => 6,
    }
}

impl LogLevel {
    /// Whether `val` is the code of a level.
    pub fn is_valid(val: u8) -> (r: bool)
        ensures
            r == (val <= 6),
    {
        val <= 6
    }

    /// The level whose code is `val`, or an error for a code above 6.
    pub fn from_u8(val: u8) -> (r: Result<LogLevel, &'static str>)
        ensures
            val <= 6 <==> r.is_ok(),
            r matches Ok(l) ==> level_code(l) == val,
    {
        match val {
            0 => Ok(LogLevel::Never),
            1 => Ok(LogLevel::Fatal),
            2 => Ok(LogLevel::Error),
            3 => Ok(LogLevel::Warn),
            4 => Ok(LogLevel::Info),
            5 => Ok(LogLevel::Debug),
            6 => Ok(LogLevel::Trace),
            _ => Err("invalid log_level, must be between 0 and 6"),
        }
    }

    /// The numeric code of this level.
    pub fn code(&self) -> (r: u8)
        ensures
            r == level_code(*self),
    {
        match self {
            LogLevel::Never => 0,
            LogLevel::Fatal => 1,
            LogLevel::Error => 2,
            LogLevel::Warn => 3,
            LogLevel::Info => 4,
            LogLevel::Debug => 5,
            LogLevel::Trace => 6,
        }
    }

    /// Whether a message of level `msg` is shown when this level is configured.
    pub fn admits(&self, msg: LogLevel) -> (r: bool)
        ensures
            r == (level_code(msg) <= level_code(*self)),
    {
        msg.code() <= self.code()
    }
}

/// Relies on std::time::SystemTime::now: the wall clock, in milliseconds since
/// the Unix epoch (0 if the clock is set before the epoch).
#[verifier::external_body]
fn wall_clock_millis() -> (r: u64) {
    match std::time::SystemTime::now().duration_since(std::time::UNIX_EPOCH) {
        Ok(d) => d.as_millis() as u64,
        Err(_) => 0,
    }
}

/// The current wall-clock time in milliseconds.
pub fn get_current_time() -> (r: u64) {
    wall_clock_millis()
}

/// Turns wall-clock readings into timestamps that never go backwards: when the
/// clock jumps back, later readings are shifted forward by the jump.
pub struct MonotonicClock {
    offset: u64,
    largest: u64,
}

impl MonotonicClock {
    /// The largest timestamp handed out so far.
    pub closed spec fn latest(&self) -> u64 {
        self.largest
    }

    pub fn new() -> (r: Self)
        ensures
            r.latest() == 0,
    {
        MonotonicClock { offset: 0, largest: 0 }
    }

    /// The timestamp for the wall-clock reading `raw`.
    pub fn observe(&mut self, raw: u64) -> (r: u64)
        ensures
            r >= old(self).latest(),
            final(self).latest() == r,
            raw >= old(self).latest() && old(self).offset_is_zero() ==> r == raw,
    {
        let fixed = raw.saturating_add(self.offset);
        if fixed < self.largest {
            self.offset = self.largest - raw;
        } else {
            self.largest = fixed;
        }
        self.largest
    }

    /// No jump back has been seen yet.
    pub closed spec fn offset_is_zero(&self) -> bool {
        self.offset == 0
    }

    /// The current time, as a timestamp that never goes backwards.
    pub fn now(&mut self) -> (r: u64)
        ensures
            r >= old(self).latest(),
            final(self).latest() == r,
    {
        let raw = get_current_time();
        self.observe(raw)
    }
}

} // verus!
