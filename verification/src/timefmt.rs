//! How long ago an entry was logged, in words.

use crate::history::Timestamp;
use vstd::prelude::*;
use vstd::string::StringExecFns;

verus! {

/// The character of the digit `d`.
pub open spec fn digit(d: nat) -> char {
    if d == 0 {
        '0'
    } else if d == 1 {
        '1'
    } else if d == 2 {
        '2'
    } else if d == 3 {
        '3'
    } else if d == 4 {
        '4'
    } else if d == 5 {
        '5'
    } else if d == 6 {
        '6'
    } else if d == 7 {
        '7'
    } else if d == 8 {
        '8'
    } else {
        '9'
    }
}

/// `n` in decimal digits, without leading zeros.
pub open spec fn decimal(n: nat) -> Seq<char>
    decreases n,
{
    if n < 10 {
        seq![digit(n)]
    } else {
        decimal(n / 10).push(digit(n % 10))
    }
}

/// The whole seconds from `then` to `now`, rounded towards zero.
pub open spec fn elapsed_seconds(now: Timestamp, then: Timestamp) -> int {
    let nanos = (now.seconds - then.seconds) * 1_000_000_000 + (now.nanos - then.nanos);
    if nanos >= 0 {
        nanos / 1_000_000_000
    } else {
        -((-nanos) / 1_000_000_000)
    }
}

/// An age of `seconds` in words: in years of 365 days from 366 days on, in
/// months of 30 days from 31 days on, else in whole days, hours or
/// minutes, and "now" for less than a minute.
pub open spec fn relative_time(seconds: int) -> Seq<char> {
    let days = seconds / 86_400;
    if seconds >= 86_400 {
        if days > 365 {
            decimal((days / 365) as nat) + "y ago"@
        } else if days > 30 {
            decimal((days / 30) as nat) + "mo ago"@
        } else {
            decimal(days as nat) + "d ago"@
        }
    } else if seconds >= 3_600 {
        decimal((seconds / 3_600) as nat) + "h ago"@
    } else if seconds >= 60 {
        decimal((seconds / 60) as nat) + "m ago"@
    } else {
        "now"@
    }
}

fn digit_text(d: u64) -> (text: &'static str)
    requires
        d < 10,
    ensures
        text@ == seq![digit(d as nat)],
{
    proof {
        reveal_strlit("0");
        reveal_strlit("1");
        reveal_strlit("2");
        reveal_strlit("3");
        reveal_strlit("4");
        reveal_strlit("5");
        reveal_strlit("6");
        reveal_strlit("7");
        reveal_strlit("8");
        reveal_strlit("9");
    }
    let text = if d == 0 {
        "0"
    } else if d == 1 {
        "1"
    } else if d == 2 {
        "2"
    } else if d == 3 {
        "3"
    } else if d == 4 {
        "4"
    } else if d == 5 {
        "5"
    } else if d == 6 {
        "6"
    } else if d == 7 {
        "7"
    } else if d == 8 {
        "8"
    } else {
        "9"
    };
    assert(text@ =~= seq![digit(d as nat)]);
    text
}

/// `n` in decimal digits.
pub fn decimal_text(n: u64) -> (text: String)
    ensures
        text@ == decimal(n as nat),
    decreases n,
{
    if n < 10 {
        digit_text(n).to_owned()
    } else {
        let mut text = decimal_text(n / 10);
        text.append(digit_text(n % 10));
        assert(text@ =~= decimal(n as nat));
        text
    }
}

/// The age `seconds` in words.
fn relative_time_text(seconds: u128) -> (text: String)
    requires
        seconds <= 2 * u64::MAX,
    ensures
        text@ == relative_time(seconds as int),
{
    if seconds >= 86_400 {
        let days: u64 = (seconds / 86_400) as u64;
        if days > 365 {
            decimal_text(days / 365).concat("y ago")
        } else if days > 30 {
            decimal_text(days / 30).concat("mo ago")
        } else {
            decimal_text(days).concat("d ago")
        }
    } else if seconds >= 3_600 {
        decimal_text((seconds / 3_600) as u64).concat("h ago")
    } else if seconds >= 60 {
        decimal_text((seconds / 60) as u64).concat("m ago")
    } else {
        "now".to_owned()
    }
}

/// How long before `now` the instant `then` lies, in words. An instant
/// that is not yet a minute old, or lies after `now`, is "now".
pub fn format_relative_time(then: &Timestamp, now: &Timestamp) -> (text: String)
    ensures
        text@ == relative_time(elapsed_seconds(*now, *then)),
{
    let nanos: i128 = (now.seconds as i128 - then.seconds as i128) * 1_000_000_000 + (
    now.nanos as i128 - then.nanos as i128);
    if nanos < 60_000_000_000 {
        assert(elapsed_seconds(*now, *then) < 60);
        "now".to_owned()
    } else {
        let seconds: i128 = nanos / 1_000_000_000;
        relative_time_text(seconds as u128)
    }
}

} // verus!
