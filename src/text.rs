//! Decimal text of integers and distances, and the text of a timestamp.

use vstd::prelude::*;
use vstd::string::StringExecFns;

verus! {

/// The character of a decimal digit.
pub open spec fn digit_char(d: nat) -> char {
    seq!['0', '1', '2', '3', '4', '5', '6', '7', '8', '9'][(d % 10) as int]
}

/// The decimal digits of a natural number, without leading zeros.
pub open spec fn decimal(n: nat) -> Seq<char>
    decreases n,
{
    if n < 10 {
        seq![digit_char(n)]
    } else {
        decimal(n / 10).push(digit_char(n % 10))
    }
}

/// The decimal text of an integer, with a leading `-` when it is negative.
pub open spec fn signed_decimal(n: int) -> Seq<char> {
    if n < 0 {
        seq!['-'] + decimal((-n) as nat)
    } else {
        decimal(n as nat)
    }
}

/// The fractional digits of a thousandth `f` (1 to 999), without trailing zeros.
pub open spec fn thousandths(f: nat) -> Seq<char> {
    if f % 100 == 0 {
        seq![digit_char(f / 100)]
    } else if f % 10 == 0 {
        seq![digit_char(f / 100), digit_char((f / 10) % 10)]
    } else {
        seq![digit_char(f / 100), digit_char((f / 10) % 10), digit_char(f % 10)]
    }
}

/// A distance given in metres, written in kilometres: the whole kilometres,
/// then a point and the remaining digits when the distance is not whole.
pub open spec fn km_text(m: nat) -> Seq<char> {
    if m % 1000 == 0 {
        decimal(m / 1000)
    } else {
        decimal(m / 1000) + seq!['.'] + thousandths(m % 1000)
    }
}

/// The text that chrono gives a UTC time, `None` where the seconds since the
/// Unix epoch are out of its range.
pub uninterp spec fn utc_datetime_text(secs: i64) -> Option<Seq<char>>;

/// The text of an optional string, viewed as characters.
pub open spec fn text_view(t: Option<String>) -> Option<Seq<char>> {
    match t {
        Some(s) => Some(s@),
        None => None,
    }
}

/// The text of a timestamp: its date and time, or `NULL` where there is none
/// or it is out of range.
pub open spec fn timestamp_text(t: Option<i64>) -> Seq<char> {
    match t {
        Some(secs) => match utc_datetime_text(secs) {
            Some(s) => s,
            None => seq!['N', 'U', 'L', 'L'],
        },
        None => seq!['N', 'U', 'L', 'L'],
    }
}

fn digit_str(d: u64) -> (r: &'static str)
    requires
        d < 10,
    ensures
        r@ == seq![digit_char(d as nat)],
{
    proof {
        reveal_strlit("0");
        reveal_strlit("1");
        reveal_strlit("2");
        reveal_strlit("3");
        reveal_strlit("4");
        reveal_strlit("5");
        reveal_strlit("6");
        reveal_strlit("7");
        reveal_strlit("8");
        reveal_strlit("9");
    }
    match d {
        0 => "0",
        1 => "1",
        2 => "2",
        3 => "3",
        4 => "4",
        5 => "5",
        6 => "6",
        7 => "7",
        8 => "8",
        _ => "9",
    }
}

/// Appends the decimal digits of `n` to `out`.
pub fn push_decimal(out: &mut String, n: u64)
    ensures
        final(out)@ == old(out)@ + decimal(n as nat),
    decreases n,
{
    if n >= 10 {
        push_decimal(out, n / 10);
    }
    out.append(digit_str(n % 10));
    proof {
        if n >= 10 {
            assert(old(out)@ + decimal(n as nat) =~= old(out)@ + decimal((n / 10) as nat) + seq![
                digit_char((n % 10) as nat),
            ]);
        }
    }
}

/// Appends the decimal text of `n`, with its sign, to `out`.
pub fn push_signed(out: &mut String, n: i64)
    ensures
        final(out)@ == old(out)@ + signed_decimal(n as int),
{
    if n < 0 {
        proof {
            reveal_strlit("-");
        }
        out.append("-");
        let m: u64 = (-(n as i128)) as u64;
        push_decimal(out, m);
        assert(final(out)@ =~= old(out)@ + signed_decimal(n as int));
    } else {
        push_decimal(out, n as u64);
    }
}

/// Appends a distance given in metres, written in kilometres, to `out`.
pub fn push_km(out: &mut String, m: u64)
    ensures
        final(out)@ == old(out)@ + km_text(m as nat),
{
    push_decimal(out, m / 1000);
    let f: u64 = m % 1000;
    if f != 0 {
        proof {
            reveal_strlit(".");
        }
        out.append(".");
        out.append(digit_str(f / 100));
        if f % 100 != 0 {
            out.append(digit_str((f / 10) % 10));
            if f % 10 != 0 {
                out.append(digit_str(f % 10));
            }
        }
        assert(final(out)@ =~= old(out)@ + km_text(m as nat));
    }
}

/// Relies on chrono's `DateTime::from_timestamp` and the `Display` of
/// `NaiveDateTime`: the text of a UTC time, `None` for seconds out of range.
#[verifier::external_body]
fn datetime_text(secs: i64) -> (r: Option<String>)
    ensures
        text_view(r) == utc_datetime_text(secs),
{
    match chrono::DateTime::from_timestamp(secs, 0) {
        Some(t) => Some(t.naive_utc().to_string()),
        None => None,
    }
}

/// Appends the text of a timestamp to `out`: its date and time, or `NULL`.
pub fn push_timestamp(out: &mut String, t: Option<i64>)
    ensures
        final(out)@ == old(out)@ + timestamp_text(t),
{
    proof {
        reveal_strlit("NULL");
    }
    match t {
        Some(secs) => match datetime_text(secs) {
            Some(s) => out.append(s.as_str()),
            None => out.append("NULL"),
        },
        None => out.append("NULL"),
    }
}

} // verus!
