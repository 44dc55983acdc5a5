//! Log levels: which one the `LOG` setting selects and how each is colored.
use vstd::prelude::*;

verus! {

/// The most verbose level that is printed.
#[derive(Clone, Copy, Debug, PartialEq, Eq, Structural)]
pub enum LogLevel {
    Off,
    Error,
    Warn,
    Info,
    Debug,
    Trace,
}

/// Whether two byte strings are equal.
fn bytes_eq(a: &[u8], b: &[u8]) -> (r: bool)
    ensures
        r == (a@ == b@),
{
    if a.len() != b.len() {
        return false;
    }
    let mut i: usize = 0;
    while i < a.len()
        invariant
            a@.len() == b@.len(),
            i <= a@.len(),
            forall|j: int| 0 <= j < i ==> a@[j] == b@[j],
        decreases a@.len() - i,
    {
        if a[i] != b[i] {
            return false;
        }
        i = i + 1;
    }
    assert(a@ =~= b@);
    true
}

/// The level that the `LOG` setting selects: `ERROR`, `WARN`, `INFO`,
/// `DEBUG` or `TRACE`; anything else, or no setting, turns logging off.
pub fn init(log: Option<&[u8]>) -> (r: LogLevel)
    ensures
        log matches Some(s) && s@ == seq![69u8, 82, 82, 79, 82] ==> r == LogLevel::Error,
        log matches Some(s) && s@ == seq![87u8, 65, 82, 78] ==> r == LogLevel::Warn,
        log matches Some(s) && s@ == seq![73u8, 78, 70, 79] ==> r == LogLevel::Info,
        log matches Some(s) && s@ == seq![68u8, 69, 66, 85, 71] ==> r == LogLevel::Debug,
        log matches Some(s) && s@ == seq![84u8, 82, 65, 67, 69] ==> r == LogLevel::Trace,
        r == LogLevel::Off <==> !(log matches Some(s) && (s@ == seq![69u8, 82, 82, 79, 82] || s@
            == seq![87u8, 65, 82, 78] || s@ == seq![73u8, 78, 70, 79] || s@ == seq![
            68u8,
            69,
            66,
            85,
            71,
        ] || s@ == seq![84u8, 82, 65, 67, 69])),
{
    let s = match log {
        Some(s) => s,
        None => return LogLevel::Off,
    };
    let error: [u8; 5] = [69, 82, 82, 79, 82];
    let warn: [u8; 4] = [87, 65, 82, 78];
    let info: [u8; 4] = [73, 78, 70, 79];
    let debug: [u8; 5] = [68, 69, 66, 85, 71];
    let trace: [u8; 5] = [84, 82, 65, 67, 69];
    proof {
        assert(error@ =~= seq![69u8, 82, 82, 79, 82]);
        assert(warn@ =~= seq![87u8, 65, 82, 78]);
        assert(info@ =~= seq![73u8, 78, 70, 79]);
        assert(debug@ =~= seq![68u8, 69, 66, 85, 71]);
        assert(trace@ =~= seq![84u8, 82, 65, 67, 69]);
    }
    if bytes_eq(s, error.as_slice()) {
        LogLevel::Error
    } else if bytes_eq(s, warn.as_slice()) {
        LogLevel::Warn
    } else if bytes_eq(s, info.as_slice()) {
        LogLevel::Info
    } else if bytes_eq(s, debug.as_slice()) {
        LogLevel::Debug
    } else if bytes_eq(s, trace.as_slice()) {
        LogLevel::Trace
    } else {
        LogLevel::Off
    }
}

/// The ANSI color code a record of this level is printed in.
pub fn level_color(level: LogLevel) -> (r: u8)
    ensures
        level == LogLevel::Error ==> r == 31,
        level == LogLevel::Warn ==> r == 93,
        level == LogLevel::Info ==> r == 34,
        level == LogLevel::Debug ==> r == 32,
        level == LogLevel::Trace ==> r == 90,
        level == LogLevel::Off ==> r == 0,
{
    match level {
        LogLevel::Error => 31,
        LogLevel::Warn => 93,
        LogLevel::Info => 34,
        LogLevel::Debug => 32,
        LogLevel::Trace => 90,
        LogLevel::Off => 0,
    }
}

} // verus!
