//! Log levels and the filter on them.

use vstd::prelude::*;
use vstd::string::StringSliceAdditionalSpecFns;
use crate::uart::{crlf, Uart};

verus! {

/// How much a message matters, from least to most.
#[derive(Clone, Copy, Debug, PartialEq, Eq, Structural)]
pub enum LogLevel {
    Trace,
    Debug,
    Info,
    Warn,
    Error,
}

/// The place of a level in their order.
pub open spec fn level_rank(level: LogLevel) -> int {
    match level {
        LogLevel::Trace => 0,
        LogLevel::Debug => 1,
        LogLevel::Info => 2,
        LogLevel::Warn => 3,
        LogLevel::Error => 4,
    }
}

fn rank(level: LogLevel) -> (r: u8)
    ensures
        r == level_rank(level),
{
    match level {
        LogLevel::Trace => 0,
        LogLevel::Debug => 1,
        LogLevel::Info => 2,
        LogLevel::Warn => 3,
        LogLevel::Error => 4,
    }
}

/// The filter: messages below its level are dropped.
pub struct Logger {
    level: LogLevel,
}

impl View for Logger {
    type V = LogLevel;

    closed spec fn view(&self) -> LogLevel {
        self.level
    }
}

impl Logger {
    /// A filter that passes `Info` and above.
    pub fn new() -> (r: Self)
        ensures
            r@ == LogLevel::Info,
    {
        Logger { level: LogLevel::Info }
    }
}

/// The level below which messages are dropped.
pub fn get_log_level(log: &Logger) -> (r: LogLevel)
    ensures
        r == log@,
{
    log.level
}

/// Sets the level below which messages are dropped.
pub fn set_log_level(log: &mut Logger, level: LogLevel)
    ensures
        final(log)@ == level,
{
    log.level = level;
}

/// Whether a message of the given level passes the filter.
pub fn should_log(log: &Logger, level: LogLevel) -> (r: bool)
    ensures
        r == (level_rank(level) >= level_rank(log@)),
{
    rank(level) >= rank(log.level)
}

/// Writes a message to the serial port.
pub fn debug_write(uart: &mut Uart, s: &str)
    ensures
        final(uart).tx@ == old(uart).tx@ + crlf(s.spec_bytes()),
        final(uart).rx@ == old(uart).rx@,
{
    uart.write_str(s);
}

/// Writes a message and the end of its line to the serial port.
pub fn debug_writeln(uart: &mut Uart, s: &str)
    ensures
        final(uart).tx@ == old(uart).tx@ + crlf(s.spec_bytes()) + seq![0x0du8, 0x0au8],
        final(uart).rx@ == old(uart).rx@,
{
    uart.write_str(s);
    uart.write_byte(0x0d);
    uart.write_byte(0x0a);
    assert(uart.tx@ =~= old(uart).tx@ + crlf(s.spec_bytes()) + seq![0x0du8, 0x0au8]);
}

} // verus!
