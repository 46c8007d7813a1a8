use vstd::prelude::*;

use crate::fixmessage::find_pat_from;
use crate::strutil::chars_of;
use crate::strutil::chars_to_string;
use vstd::string::StrSliceExecFns;
use vstd::string::StringExecFns;

verus! {

/// Severity of a log line, least urgent first.
#[derive(Debug, Clone, Copy, PartialEq, Eq, Structural)]
pub enum LogLevel {
    Debug,
    Info,
    Warn,
    Error,
}

/// Numeric urgency of a level.
pub open spec fn spec_severity(l: LogLevel) -> u8 {
    match l {
        LogLevel::Debug => 0,
        LogLevel::Info => 1,
        LogLevel::Warn => 2,
        LogLevel::Error => 3,
    }
}

/// The level's tag as printed, centred in five columns.
pub open spec fn spec_level_str(l: LogLevel) -> Seq<char> {
    match l {
        LogLevel::Debug => "DEBUG"@,
        LogLevel::Info => "INFO "@,
        LogLevel::Warn => "WARN "@,
        LogLevel::Error => "ERROR"@,
    }
}

/// The decimal digits of `n`, most significant first.
pub open spec fn dec_str(n: int) -> Seq<char>
    decreases n,
{
    if n < 10 {
        seq![digit_char(n)]
    } else {
        dec_str(n / 10).push(digit_char(n % 10))
    }
}

/// The character for one decimal digit.
pub open spec fn digit_char(d: int) -> char {
    if d == 0 { '0' }
    else if d == 1 { '1' }
    else if d == 2 { '2' }
    else if d == 3 { '3' }
    else if d == 4 { '4' }
    else if d == 5 { '5' }
    else if d == 6 { '6' }
    else if d == 7 { '7' }
    else if d == 8 { '8' }
    else { '9' }
}

/// `n` in decimal, zero-padded to at least two digits.
pub open spec fn pad2(n: int) -> Seq<char> {
    if n < 10 {
        seq!['0'] + dec_str(n)
    } else {
        dec_str(n)
    }
}

/// `n` in decimal, zero-padded to at least three digits.
pub open spec fn pad3(n: int) -> Seq<char> {
    if n < 10 {
        seq!['0', '0'] + dec_str(n)
    } else if n < 100 {
        seq!['0'] + dec_str(n)
    } else {
        dec_str(n)
    }
}

/// An elapsed time as `HH:MM:SS.mmm` (hours take as many digits as they
/// need).
pub open spec fn spec_format_time(ms: int) -> Seq<char> {
    let millis = ms % 1000;
    let total_seconds = ms / 1000;
    let seconds = total_seconds % 60;
    let total_minutes = total_seconds / 60;
    let minutes = total_minutes % 60;
    let hours = total_minutes / 60;
    pad2(hours) + seq![':'] + pad2(minutes) + seq![':'] + pad2(seconds) + seq!['.'] + pad3(millis)
}

/// The module path with its first segment (the crate name) dropped, as log
/// lines print it; a path without `::` stands as it is.
pub open spec fn spec_module_tail(m: Seq<char>) -> Seq<char> {
    let p = find_pat_from(m, seq![':', ':'], 0);
    if p == -1 {
        m
    } else {
        m.skip(p + 2)
    }
}

/// One rendered log line.
pub open spec fn spec_log_line(l: LogLevel, msg: Seq<char>, module: Seq<char>, ms: int) -> Seq<
    char,
> {
    spec_format_time(ms) + seq![' ', '['] + spec_level_str(l) + seq![']', ' ']
        + spec_module_tail(module) + seq![' ', '-', ' '] + msg
}

impl LogLevel {
    /// Numeric urgency, for threshold comparisons.
    pub fn severity(&self) -> (r: u8)
        ensures
            r == spec_severity(*self),
    {
        match self {
            LogLevel::Debug => 0,
            LogLevel::Info => 1,
            LogLevel::Warn => 2,
            LogLevel::Error => 3,
        }
    }
}

/// The decimal digits of `n`.
fn dec_digits(n: u64) -> (v: Vec<char>)
    ensures
        v@ == dec_str(n as int),
    decreases n,
{
    if n < 10 {
        let c = digit_of(n);
        let mut v: Vec<char> = Vec::new();
        v.push(c);
        proof {
            assert(v@ =~= seq![digit_char(n as int)]);
        }
        v
    } else {
        let mut v = dec_digits(n / 10);
        v.push(digit_of(n % 10));
        v
    }
}

/// The character for one digit value.
fn digit_of(d: u64) -> (c: char)
    requires
        d < 10,
    ensures
        c == digit_char(d as int),
{
    if d == 0 { '0' }
    else if d == 1 { '1' }
    else if d == 2 { '2' }
    else if d == 3 { '3' }
    else if d == 4 { '4' }
    else if d == 5 { '5' }
    else if d == 6 { '6' }
    else if d == 7 { '7' }
    else if d == 8 { '8' }
    else { '9' }
}

/// `n` in decimal, zero-padded to at least two digits.
fn pad2_exec(n: u64) -> (v: Vec<char>)
    ensures
        v@ == pad2(n as int),
{
    let mut v: Vec<char> = Vec::new();
    if n < 10 {
        v.push('0');
    }
    let mut d = dec_digits(n);
    let mut k: usize = 0;
    let ghost pre = v@;
    while k < d.len()
        invariant
            k <= d@.len(),
            v@ == pre + d@.take(k as int),
        decreases d@.len() - k,
    {
        v.push(d[k]);
        proof {
            assert(v@ =~= pre + d@.take(k as int + 1));
        }
        k = k + 1;
    }
    proof {
        assert(d@.take(d@.len() as int) =~= d@);
        if n < 10 {
            assert(v@ =~= seq!['0'] + dec_str(n as int));
        } else {
            assert(v@ =~= dec_str(n as int));
        }
    }
    v
}

/// `n` in decimal, zero-padded to at least three digits.
fn pad3_exec(n: u64) -> (v: Vec<char>)
    ensures
        v@ == pad3(n as int),
{
    let mut v: Vec<char> = Vec::new();
    if n < 10 {
        v.push('0');
        v.push('0');
    } else if n < 100 {
        v.push('0');
    }
    let mut d = dec_digits(n);
    let mut k: usize = 0;
    let ghost pre = v@;
    while k < d.len()
        invariant
            k <= d@.len(),
            v@ == pre + d@.take(k as int),
        decreases d@.len() - k,
    {
        v.push(d[k]);
        proof {
            assert(v@ =~= pre + d@.take(k as int + 1));
        }
        k = k + 1;
    }
    proof {
        assert(d@.take(d@.len() as int) =~= d@);
        if n < 10 {
            assert(v@ =~= seq!['0', '0'] + dec_str(n as int));
        } else if n < 100 {
            assert(v@ =~= seq!['0'] + dec_str(n as int));
        } else {
            assert(v@ =~= dec_str(n as int));
        }
    }
    v
}

/// Renders an elapsed duration (in milliseconds) as `HH:MM:SS.mmm`.
pub fn format_time(total_milliseconds: u64) -> (r: String)
    ensures
        r@ == spec_format_time(total_milliseconds as int),
{
    let millis = total_milliseconds % 1000;
    let total_seconds = total_milliseconds / 1000;
    let seconds = total_seconds % 60;
    let total_minutes = total_seconds / 60;
    let minutes = total_minutes % 60;
    let hours = total_minutes / 60;
    let mut out = chars_to_string(&pad2_exec(hours));
    out.append(":");
    let m = chars_to_string(&pad2_exec(minutes));
    out.append(m.as_str());
    out.append(":");
    let sstr = chars_to_string(&pad2_exec(seconds));
    out.append(sstr.as_str());
    out.append(".");
    let mstr = chars_to_string(&pad3_exec(millis));
    out.append(mstr.as_str());
    proof {
        reveal_strlit(":");
        reveal_strlit(".");
        assert(":"@ =~= seq![':']);
        assert("."@ =~= seq!['.']);
        assert(out@ =~= spec_format_time(total_milliseconds as int));
    }
    out
}

/// Renders log lines and filters them by a fixed threshold level. The
/// caller owns the clock and the output: it hands in the elapsed
/// milliseconds and writes out whatever line comes back.
pub struct Logger {
    pub level: LogLevel,
}

impl Logger {
    /// A logger that lets through lines at or above the threshold.
    pub fn new(level: LogLevel) -> (r: Logger)
        ensures
            r.level == level,
    {
        Logger { level }
    }

    /// The rendered line for a message, or nothing when the level falls
    /// under the threshold: elapsed time, the level tag in brackets, the
    /// module path without its leading crate name, and the message.
    pub fn log(&self, level: LogLevel, message: &str, module: &str, elapsed_ms: u64) -> (r: Option<
        String,
    >)
        ensures
            match r {
                Some(s) => spec_severity(level) >= spec_severity(self.level) && s@ == spec_log_line(
                    level,
                    message@,
                    module@,
                    elapsed_ms as int,
                ),
                None => spec_severity(level) < spec_severity(self.level),
            },
    {
        if level.severity() < self.level.severity() {
            return None;
        }
        let mut out = format_time(elapsed_ms);
        out.append(" [");
        let tag: &'static str = match level {
            LogLevel::Debug => "DEBUG",
            LogLevel::Info => "INFO ",
            LogLevel::Warn => "WARN ",
            LogLevel::Error => "ERROR",
        };
        out.append(tag);
        out.append("] ");
        let tail = Self::module_tail(module);
        out.append(tail.as_str());
        out.append(" - ");
        out.append(message);
        proof {
            reveal_strlit(" [");
            reveal_strlit("] ");
            reveal_strlit(" - ");
            assert(" ["@ =~= seq![' ', '[']);
            assert("] "@ =~= seq![']', ' ']);
            assert(" - "@ =~= seq![' ', '-', ' ']);
            assert(out@ =~= spec_log_line(level, message@, module@, elapsed_ms as int));
        }
        Some(out)
    }

    /// The module path with its first segment dropped.
    fn module_tail(module: &str) -> (r: String)
        ensures
            r@ == spec_module_tail(module@),
    {
        let mc = chars_of(module);
        let mut sep: Vec<char> = Vec::new();
        sep.push(':');
        sep.push(':');
        proof {
            assert(sep@ =~= seq![':', ':']);
        }
        match crate::fixmessage::find_pat_exec(&mc, &sep, 0) {
            None => module.to_owned(),
            Some(p) => {
                let n = module.unicode_len();
                let tail = module.substring_char(p + 2, n);
                proof {
                    assert(tail@ =~= module@.skip(p + 2));
                }
                tail.to_owned()
            },
        }
    }
}

} // verus!
