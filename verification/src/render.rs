//! Rendering of commit ages: decimal formatting of integers and the
//! bucketing of a duration in seconds into a human-readable phrase.

use vstd::prelude::*;
use vstd::string::StringExecFns;

verus! {

/// The character for one decimal digit value.
pub open spec fn spec_digit_char(d: nat) -> char
    recommends
        d < 10,
{
    if d == 0 {
        '0'
    } else if d == 1 {
        '1'
    } else if d == 2 {
        '2'
    } else if d == 3 {
        '3'
    } else if d == 4 {
        '4'
    } else if d == 5 {
        '5'
    } else if d == 6 {
        '6'
    } else if d == 7 {
        '7'
    } else if d == 8 {
        '8'
    } else {
        '9'
    }
}

/// The decimal rendering of `n`, most significant digit first, with no
/// leading zeros (`0` renders as `"0"`).
pub open spec fn spec_decimal(n: nat) -> Seq<char>
    decreases n,
{
    if n < 10 {
        seq![spec_digit_char(n)]
    } else {
        spec_decimal(n / 10) + seq![spec_digit_char(n % 10)]
    }
}

fn digit_str(d: u64) -> (r: &'static str)
    requires
        d < 10,
    ensures
        r@ == seq![spec_digit_char(d as nat)],
{
    if d == 0 {
        proof {
            reveal_strlit("0");
            assert("0"@ =~= seq![spec_digit_char(d as nat)]);
        }
        "0"
    } else if d == 1 {
        proof {
            reveal_strlit("1");
            assert("1"@ =~= seq![spec_digit_char(d as nat)]);
        }
        "1"
    } else if d == 2 {
        proof {
            reveal_strlit("2");
            assert("2"@ =~= seq![spec_digit_char(d as nat)]);
        }
        "2"
    } else if d == 3 {
        proof {
            reveal_strlit("3");
            assert("3"@ =~= seq![spec_digit_char(d as nat)]);
        }
        "3"
    } else if d == 4 {
        proof {
            reveal_strlit("4");
            assert("4"@ =~= seq![spec_digit_char(d as nat)]);
        }
        "4"
    } else if d == 5 {
        proof {
            reveal_strlit("5");
            assert("5"@ =~= seq![spec_digit_char(d as nat)]);
        }
        "5"
    } else if d == 6 {
        proof {
            reveal_strlit("6");
            assert("6"@ =~= seq![spec_digit_char(d as nat)]);
        }
        "6"
    } else if d == 7 {
        proof {
            reveal_strlit("7");
            assert("7"@ =~= seq![spec_digit_char(d as nat)]);
        }
        "7"
    } else if d == 8 {
        proof {
            reveal_strlit("8");
            assert("8"@ =~= seq![spec_digit_char(d as nat)]);
        }
        "8"
    } else {
        proof {
            reveal_strlit("9");
            assert("9"@ =~= seq![spec_digit_char(d as nat)]);
        }
        "9"
    }
}

fn push_decimal(s: &mut String, n: u64)
    ensures
        final(s)@ == old(s)@ + spec_decimal(n as nat),
    decreases n,
{
    if n >= 10 {
        proof {
            assert(n / 10 < n) by (nonlinear_arith)
                requires
                    n >= 10,
            ;
        }
        push_decimal(s, n / 10);
    }
    let d: u64 = n % 10;
    let ds = digit_str(d);
    s.append(ds);
    proof {
        if n < 10 {
            assert(old(s)@ + seq![spec_digit_char(n as nat)] =~= old(s)@ + spec_decimal(n as nat));
        } else {
            assert((old(s)@ + spec_decimal((n / 10) as nat)) + seq![spec_digit_char((n % 10) as nat)]
                =~= old(s)@ + spec_decimal(n as nat));
        }
    }
}

/// Render `n` in decimal.
pub fn u64_to_string(n: u64) -> (s: String)
    ensures
        s@ == spec_decimal(n as nat),
{
    let mut s = String::new();
    push_decimal(&mut s, n);
    proof {
        assert(Seq::<char>::empty() + spec_decimal(n as nat) =~= spec_decimal(n as nat));
    }
    s
}

/// The phrase a duration of `d` seconds is bucketed into.
///
/// Bucket boundaries are strict less-than on the lower bound: under a
/// minute the seconds count is shown, under two minutes "1 minute ago",
/// under an hour whole minutes, under two hours "1 hour ago", under a day
/// whole hours, under two days "yesterday", under 31 days whole days, and
/// otherwise whole 31-day months.
pub open spec fn spec_time_since(d: u64) -> Seq<char> {
    if d < 60 {
        spec_decimal(d as nat) + " seconds ago"@
    } else if d < 120 {
        "1 minute ago"@
    } else if d < 3600 {
        spec_decimal((d / 60) as nat) + " minutes ago"@
    } else if d < 7200 {
        "1 hour ago"@
    } else if d < 86400 {
        spec_decimal((d / 3600) as nat) + " hours ago"@
    } else if d < 172800 {
        "yesterday"@
    } else if d < 2678400 {
        spec_decimal((d / 86400) as nat) + " days ago"@
    } else {
        spec_decimal((d / 2678400) as nat) + " months ago"@
    }
}

/// Bucket a duration of `duration` seconds into its phrase.
pub fn duration_to_time_since(duration: u64) -> (s: String)
    ensures
        s@ == spec_time_since(duration),
{
    if duration < 60 {
        let mut s = u64_to_string(duration);
        s.append(" seconds ago");
        s
    } else if duration < 120 {
        String::from_str("1 minute ago")
    } else if duration < 3600 {
        let mut s = u64_to_string(duration / 60);
        s.append(" minutes ago");
        s
    } else if duration < 7200 {
        String::from_str("1 hour ago")
    } else if duration < 86400 {
        let mut s = u64_to_string(duration / 3600);
        s.append(" hours ago");
        s
    } else if duration < 172800 {
        String::from_str("yesterday")
    } else if duration < 2678400 {
        let mut s = u64_to_string(duration / 86400);
        s.append(" days ago");
        s
    } else {
        let mut s = u64_to_string(duration / 2678400);
        s.append(" months ago");
        s
    }
}

/// How many whole seconds lie between a commit timestamp `t` (signed
/// seconds since the epoch) and the present moment `now`, saturating: a
/// timestamp in the future gives `0`, and an age beyond `u64::MAX` gives
/// `u64::MAX`.
pub open spec fn spec_age(now: u64, t: int) -> u64 {
    if t > now {
        0u64
    } else if now - t > u64::MAX {
        u64::MAX
    } else {
        (now - t) as u64
    }
}

/// The saturating age in seconds of the timestamp `time` at the moment `now`.
pub fn age_seconds(now: u64, time: i64) -> (a: u64)
    ensures
        a == spec_age(now, time as int),
{
    if time >= 0 {
        let t: u64 = time as u64;
        if t > now {
            0
        } else {
            now - t
        }
    } else {
        let mag: u64 = ((-(time + 1)) as u64) + 1;
        proof {
            assert(mag == -(time as int));
        }
        if now > u64::MAX - mag {
            u64::MAX
        } else {
            now + mag
        }
    }
}

} // verus!
