//! Timestamped log lines, as shown in the log panel.

use vstd::prelude::*;
use crate::text::{chars_of, digit_char, string_of, append_chars};

verus! {

/// Two decimal digits of `n` < 100.
pub open spec fn two_digits(n: nat) -> Seq<char> {
    seq![digit_char(n / 10), digit_char(n % 10)]
}

/// `[HH:MM:SS] `.
pub open spec fn clock_line(h: nat, m: nat, s: nat) -> Seq<char> {
    seq!['['] + two_digits(h) + seq![':'] + two_digits(m) + seq![':'] + two_digits(s) + seq![']', ' ']
}

/// `chrono::NaiveTime::from_hms_nano_opt` formatted with `"[%H:%M:%S] "`:
/// each field as two zero-padded digits, a leap second shown as 60.
#[verifier::external_body]
fn clock_text(h: u32, m: u32, s: u32, nano: u32) -> (r: String)
    requires
        h < 24,
        m < 60,
        s < 60,
        nano < 2_000_000_000,
        nano >= 1_000_000_000 ==> s == 59,
    ensures
        r@ == clock_line(h as nat, m as nat, (s + nano / 1_000_000_000) as nat),
{
    chrono::NaiveTime::from_hms_nano_opt(h, m, s, nano).unwrap().format("[%H:%M:%S] ").to_string()
}

/// Whether an hour, minute, second and nanosecond form a time of day
/// (a nanosecond count of a second or more marks a leap second, which
/// only second 59 can hold).
pub open spec fn clock_valid(h: u32, m: u32, s: u32, nano: u32) -> bool {
    &&& h < 24
    &&& m < 60
    &&& s < 60
    &&& nano < 2_000_000_000
    &&& nano >= 1_000_000_000 ==> s == 59
}

/// The time of day `h:m:s` (and `nano` nanoseconds) as `[HH:MM:SS] `, a
/// leap second shown as second 60; `None` when it is no time of day.
pub fn timestamp(h: u32, m: u32, s: u32, nano: u32) -> (r: Option<String>)
    ensures
        match r {
            Some(t) => clock_valid(h, m, s, nano) && t@ == clock_line(
                h as nat,
                m as nat,
                (s + nano / 1_000_000_000) as nat,
            ),
            None => !clock_valid(h, m, s, nano),
        },
{
    if h < 24 && m < 60 && s < 60 && nano < 2_000_000_000 && (nano < 1_000_000_000 || s == 59) {
        Some(clock_text(h, m, s, nano))
    } else {
        None
    }
}

/// A log line: `stamp` (the time as `[HH:MM:SS] `), if there is one, then
/// `msg`.
pub fn log_line_at(stamp: Option<String>, msg: &str) -> (r: String)
    ensures
        r@ == match stamp {
            Some(t) => t@ + msg@,
            None => msg@,
        },
{
    let mut out = match stamp {
        Some(t) => chars_of(t.as_str()),
        None => Vec::new(),
    };
    let ghost before = out@;
    let body = chars_of(msg);
    append_chars(&mut out, body.as_slice());
    proof {
        if stamp.is_none() {
            assert(before + msg@ =~= msg@);
        }
    }
    string_of(out.as_slice())
}

} // verus!
