//! What the log writes: the lines of the message log and of the time log,
//! and durations as hours, minutes and seconds.

use vstd::prelude::*;
use vstd::string::*;
use vstd::utf8::*;
use crate::text::{chars_vec, nat_decimal, push_char, push_nat_decimal, substr_bytes};

verus! {

/// The unit of the times in the time log.
#[derive(Debug, Clone, Copy, PartialEq, Eq, Structural)]
pub enum LogPrecision {
    Seconds,
    Microseconds,
}

/// The unit symbol of a precision.
pub open spec fn unit_of(p: LogPrecision) -> Seq<char> {
    match p {
        LogPrecision::Seconds => "s"@,
        LogPrecision::Microseconds => "µs"@,
    }
}

impl LogPrecision {
    /// The unit symbol: "s" or "µs".
    pub fn unit_str(&self) -> (r: &'static str)
        ensures
            r@ == unit_of(*self),
    {
        match self {
            LogPrecision::Seconds => "s",
            LogPrecision::Microseconds => "µs",
        }
    }
}

/// How `{:02}` writes a number: at least two digits.
pub open spec fn two_digits(n: nat) -> Seq<char> {
    if n < 10 {
        seq!['0'] + nat_decimal(n)
    } else {
        nat_decimal(n)
    }
}

fn push_two_digits(s: &mut String, n: u64)
    ensures
        final(s)@ == old(s)@ + two_digits(n as nat),
{
    if n < 10 {
        push_char(s, '0');
    }
    push_nat_decimal(s, n);
    assert(s@ =~= old(s)@ + two_digits(n as nat));
}

/// A duration of `total_secs` seconds as `HH:MM:SS` (hours not bounded).
pub fn format_duration(total_secs: u64) -> (r: String)
    ensures
        r@ == two_digits(total_secs as nat / 3600) + ":"@ + two_digits((total_secs as nat % 3600) / 60)
            + ":"@ + two_digits(total_secs as nat % 60),
{
    let hours = total_secs / 3600;
    let minutes = (total_secs % 3600) / 60;
    let seconds = total_secs % 60;
    let mut s = String::new();
    push_two_digits(&mut s, hours);
    s.append(":");
    push_two_digits(&mut s, minutes);
    s.append(":");
    push_two_digits(&mut s, seconds);
    assert(s@ =~= two_digits(total_secs as nat / 3600) + ":"@ + two_digits(
        (total_secs as nat % 3600) / 60,
    ) + ":"@ + two_digits(total_secs as nat % 60));
    s
}

/// A message for the log, and whether it starts a new log file.
#[derive(Debug)]
pub struct LogMessage {
    pub text: String,
    pub start_new: bool,
}

fn message(prefix: &str, msg: &str, start_new: bool) -> (r: LogMessage)
    ensures
        r.text@ == prefix@ + msg@,
        r.start_new == start_new,
{
    let mut text = String::from_str(prefix);
    text.append(msg);
    LogMessage { text, start_new }
}

/// An information message.
pub fn info(msg: &str) -> (r: LogMessage)
    ensures
        r.text@ == "INFO: "@ + msg@,
        !r.start_new,
{
    info_with_options(msg, false)
}

/// An information message, possibly starting a new log file.
pub fn info_with_options(msg: &str, start_new: bool) -> (r: LogMessage)
    ensures
        r.text@ == "INFO: "@ + msg@,
        r.start_new == start_new,
{
    message("INFO: ", msg, start_new)
}

/// A warning.
pub fn warn(msg: &str) -> (r: LogMessage)
    ensures
        r.text@ == "WARN: "@ + msg@,
        !r.start_new,
{
    warn_with_options(msg, false)
}

/// A warning, possibly starting a new log file.
pub fn warn_with_options(msg: &str, start_new: bool) -> (r: LogMessage)
    ensures
        r.text@ == "WARN: "@ + msg@,
        r.start_new == start_new,
{
    message("WARN: ", msg, start_new)
}

/// An error message.
pub fn error(msg: &str) -> (r: LogMessage)
    ensures
        r.text@ == "ERROR: "@ + msg@,
        !r.start_new,
{
    error_with_options(msg, false)
}

/// An error message, possibly starting a new log file.
pub fn error_with_options(msg: &str, start_new: bool) -> (r: LogMessage)
    ensures
        r.text@ == "ERROR: "@ + msg@,
        r.start_new == start_new,
{
    message("ERROR: ", msg, start_new)
}

/// A profiling message, with the time since the epoch as `{:?}` writes it.
pub fn profile(msg: &str, elapsed: &str) -> (r: LogMessage)
    ensures
        r.text@ == "PROFILE: "@ + msg@ + ": "@ + elapsed@,
        !r.start_new,
{
    profile_with_options(msg, elapsed, false)
}

/// A profiling message, possibly starting a new log file.
pub fn profile_with_options(msg: &str, elapsed: &str, start_new: bool) -> (r: LogMessage)
    ensures
        r.text@ == "PROFILE: "@ + msg@ + ": "@ + elapsed@,
        r.start_new == start_new,
{
    let mut text = String::from_str("PROFILE: ");
    text.append(msg);
    text.append(": ");
    text.append(elapsed);
    assert(text@ =~= "PROFILE: "@ + msg@ + ": "@ + elapsed@);
    LogMessage { text, start_new }
}

/// An elapsed time, in whole seconds and in whole microseconds.
#[derive(Debug, Clone, Copy)]
pub struct Elapsed {
    pub secs: u64,
    pub micros: u128,
}

/// An elapsed time in a precision (microseconds kept to 64 bits, as `as u64` does).
pub open spec fn elapsed_in(e: Elapsed, p: LogPrecision) -> nat {
    match p {
        LogPrecision::Seconds => e.secs as nat,
        LogPrecision::Microseconds => (e.micros as nat) % 0x1_0000_0000_0000_0000,
    }
}

/// A message with each underscore escaped by a backslash.
pub open spec fn underscores_escaped(s: Seq<char>) -> Seq<char>
    decreases s.len(),
{
    if s.len() == 0 {
        s
    } else {
        underscores_escaped(s.drop_last()) + if s.last() == '_' {
            seq!['\\', '_']
        } else {
            seq![s.last()]
        }
    }
}

/// A message cut to its first 30 bytes.
pub open spec fn cut_message(m: Seq<char>) -> Seq<char> {
    if encode_utf8(m).len() > 30 {
        decode_utf8(encode_utf8(m).subrange(0, 30))
    } else {
        m
    }
}

/// A message can be cut to 30 bytes: it is shorter, or its 30th byte ends a
/// character.
pub open spec fn cuttable(m: Seq<char>) -> bool {
    encode_utf8(m).len() > 30 ==> is_char_boundary(encode_utf8(m), 30)
}

/// The time log: its precision and its file.
#[derive(Debug)]
pub struct TimeLog {
    pub precision: LogPrecision,
    pub log_file: String,
}

impl TimeLog {
    /// A time log in `profile_time.dat` of the current directory.
    pub fn new(precision: LogPrecision) -> (r: TimeLog)
        ensures
            r.precision == precision,
            r.log_file@ == "./profile_time.dat"@,
    {
        TimeLog { precision, log_file: String::from_str("./profile_time.dat") }
    }

    /// The line of the time log for a message: the total and step times in
    /// the log's precision and the message cut to 30 bytes with its
    /// underscores escaped, separated by tabs.
    pub fn log(&self, msg: &str, total: Elapsed, step: Elapsed) -> (r: String)
        requires
            cuttable(msg@),
        ensures
            r@ == nat_decimal(elapsed_in(total, self.precision)) + "\t"@ + nat_decimal(
                elapsed_in(step, self.precision),
            ) + "\t"@ + underscores_escaped(cut_message(msg@)) + "\n"@,
    {
        let bytes = msg.as_bytes();
        let cut: &str = if bytes.len() > 30 {
            proof {
                encode_utf8_valid_utf8(msg@);
                is_char_boundary_start_end_of_seq(msg.spec_bytes());
            }
            let c = substr_bytes(msg, 0, 30);
            proof {
                encode_utf8_decode_utf8(c@);
            }
            c
        } else {
            msg
        };
        let (t, s) = match self.precision {
            LogPrecision::Seconds => (total.secs, step.secs),
            LogPrecision::Microseconds => (
                (total.micros % 0x1_0000_0000_0000_0000u128) as u64,
                (step.micros % 0x1_0000_0000_0000_0000u128) as u64,
            ),
        };
        let mut line = String::new();
        push_nat_decimal(&mut line, t);
        line.append("\t");
        push_nat_decimal(&mut line, s);
        line.append("\t");
        let ghost head = line@;
        let cv = chars_vec(cut);
        let mut i: usize = 0;
        while i < cv.len()
            invariant
                i <= cv@.len(),
                line@ == head + underscores_escaped(cv@.take(i as int)),
            decreases cv@.len() - i,
        {
            assert(cv@.take(i + 1).drop_last() =~= cv@.take(i as int));
            if cv[i] == '_' {
                push_char(&mut line, '\\');
                push_char(&mut line, '_');
            } else {
                push_char(&mut line, cv[i]);
            }
            assert(line@ =~= head + underscores_escaped(cv@.take(i + 1)));
            i = i + 1;
        }
        assert(cv@.take(cv@.len() as int) =~= cv@);
        line.append("\n");
        assert(line@ =~= nat_decimal(elapsed_in(total, self.precision)) + "\t"@ + nat_decimal(
            elapsed_in(step, self.precision),
        ) + "\t"@ + underscores_escaped(cut_message(msg@)) + "\n"@);
        line
    }
}

/// The message log: its file and its switches.
#[derive(Debug)]
pub struct Logger {
    pub log_file: String,
    pub time_log: Option<TimeLog>,
    pub disable_log: bool,
    pub enable_print_log: bool,
}

impl Logger {
    /// A logger writing to `tipitaka_xml_parser_log.txt` in the current
    /// directory, with a time log in microseconds when asked for.
    pub fn new(disable_log: bool, enable_print_log: bool, enable_time_log: bool) -> (r: Logger)
        ensures
            r.log_file@ == "./tipitaka_xml_parser_log.txt"@,
            r.disable_log == disable_log,
            r.enable_print_log == enable_print_log,
            r.time_log matches Some(t) ==> t.precision == LogPrecision::Microseconds,
            r.time_log is Some == enable_time_log,
    {
        let time_log = if enable_time_log {
            Some(TimeLog::new(LogPrecision::Microseconds))
        } else {
            None
        };
        Logger {
            log_file: String::from_str("./tipitaka_xml_parser_log.txt"),
            time_log,
            disable_log,
            enable_print_log,
        }
    }

    /// The line written to the log file for a message at a time stamp; none
    /// when the log is disabled.
    pub fn log_line(&self, message: &str, timestamp: &str) -> (r: Option<String>)
        ensures
            match r {
                Some(l) => !self.disable_log && l@ == "["@ + timestamp@ + "] "@ + message@ + "\n"@,
                None => self.disable_log,
            },
    {
        if self.disable_log {
            return None;
        }
        let mut l = String::from_str("[");
        l.append(timestamp);
        l.append("] ");
        l.append(message);
        l.append("\n");
        assert(l@ =~= "["@ + timestamp@ + "] "@ + message@ + "\n"@);
        Some(l)
    }
}

} // verus!
