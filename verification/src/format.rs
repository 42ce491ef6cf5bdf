//! Decimal numbers and durations as text.
use vstd::prelude::*;

verus! {

/// The decimal digit `d`.
pub open spec fn digit_char(d: nat) -> char {
    if d == 0 {
        '0'
    } else if d == 1 {
        '1'
    } else if d == 2 {
        '2'
    } else if d == 3 {
        '3'
    } else if d == 4 {
        '4'
    } else if d == 5 {
        '5'
    } else if d == 6 {
        '6'
    } else if d == 7 {
        '7'
    } else if d == 8 {
        '8'
    } else {
        '9'
    }
}

/// The decimal notation of `n`, without leading zeros.
pub open spec fn decimal(n: nat) -> Seq<char>
    decreases n,
{
    if n < 10 {
        seq![digit_char(n)]
    } else {
        decimal(n / 10).push(digit_char(n % 10))
    }
}

/// The decimal notation of `n`, padded with a zero to two digits.
pub open spec fn two_digits(n: nat) -> Seq<char> {
    if n < 10 {
        seq!['0', digit_char(n)]
    } else {
        decimal(n)
    }
}

/// Decimal digits contain no escape character.
pub proof fn lemma_decimal_has_no_escape(n: nat)
    ensures
        !decimal(n).contains('\x1b'),
    decreases n,
{
    if n >= 10 {
        lemma_decimal_has_no_escape(n / 10);
        assert forall|i: int| 0 <= i < decimal(n).len() implies decimal(n)[i] != '\x1b' by {
            if i < decimal(n / 10).len() {
                assert(decimal(n)[i] == decimal(n / 10)[i]);
            }
        }
    } else {
        assert(decimal(n)[0] != '\x1b');
    }
}

fn digit_text(d: u64) -> (text: &'static str)
    requires
        d < 10,
    ensures
        text@ == seq![digit_char(d as nat)],
{
    proof {
        reveal_strlit("0");
        reveal_strlit("1");
        reveal_strlit("2");
        reveal_strlit("3");
        reveal_strlit("4");
        reveal_strlit("5");
        reveal_strlit("6");
        reveal_strlit("7");
        reveal_strlit("8");
        reveal_strlit("9");
    }
    match d {
        0 => "0",
        1 => "1",
        2 => "2",
        3 => "3",
        4 => "4",
        5 => "5",
        6 => "6",
        7 => "7",
        8 => "8",
        _ => "9",
    }
}

/// Appends the decimal notation of `n` to `out`.
pub fn push_decimal(out: &mut String, n: u64)
    ensures
        final(out)@ == old(out)@ + decimal(n as nat),
    decreases n,
{
    if n >= 10 {
        push_decimal(out, n / 10);
    }
    out.append(digit_text(n % 10));
    proof {
        if n >= 10 {
            assert(decimal(n as nat) == decimal((n / 10) as nat).push(digit_char((n % 10) as nat)));
        }
    }
}

/// Appends `n` padded with a zero to two digits to `out`.
fn push_two_digits(out: &mut String, n: u64)
    ensures
        final(out)@ == old(out)@ + two_digits(n as nat),
{
    if n < 10 {
        out.append("0");
        proof {
            reveal_strlit("0");
        }
    }
    push_decimal(out, n);
}

/// The text of a cost of `half_points` half-points, in points: without
/// decimals when it is whole, otherwise with the one decimal `.5`.
pub open spec fn cost_text(half_points: nat) -> Seq<char> {
    if half_points % 2 == 0 {
        decimal(half_points / 2)
    } else {
        decimal(half_points / 2) + ".5"@
    }
}

/// A cost given in half-points, shown in points: "12" or "12.5".
pub fn format_cost(half_points: u64) -> (text: String)
    ensures
        text@ == cost_text(half_points as nat),
{
    let mut text = String::new();
    push_decimal(&mut text, half_points / 2);
    if half_points % 2 == 1 {
        text.append(".5");
    }
    text
}

/// A span of time: whole seconds and the nanoseconds of the last second.
pub struct ElapsedTime {
    secs: u64,
    nanos: u32,
}

impl View for ElapsedTime {
    /// Whole seconds, and the nanoseconds of the last, incomplete second.
    type V = (nat, nat);

    closed spec fn view(&self) -> (nat, nat) {
        (self.secs as nat, self.nanos as nat)
    }
}

impl ElapsedTime {
    #[verifier::type_invariant]
    spec fn nanos_below_a_second(self) -> bool {
        self.nanos < 1_000_000_000
    }

    /// `secs` seconds and `nanos` nanoseconds; whole seconds among the
    /// nanoseconds are carried into the seconds.
    pub fn new(secs: u64, nanos: u32) -> (time: ElapsedTime)
        requires
            secs + nanos / 1_000_000_000 <= u64::MAX,
        ensures
            time@ == ((secs + nanos / 1_000_000_000) as nat, (nanos % 1_000_000_000) as nat),
    {
        ElapsedTime { secs: secs + (nanos / 1_000_000_000) as u64, nanos: nanos % 1_000_000_000 }
    }

    /// Whole seconds.
    pub fn as_secs(&self) -> (secs: u64)
        ensures
            secs == self@.0,
    {
        self.secs
    }

    /// Nanoseconds of the last, incomplete second.
    pub fn subsec_nanos(&self) -> (nanos: u32)
        ensures
            nanos == self@.1,
            nanos < 1_000_000_000,
    {
        proof {
            use_type_invariant(self);
        }
        self.nanos
    }
}

/// The text of `secs` seconds and `nanos` nanoseconds, as seconds with one
/// decimal.
pub uninterp spec fn seconds_tenths_text(secs: u64, nanos: u32) -> Seq<char>;

/// The seconds of a span of time, as `Duration::as_secs_f64` formatted with
/// `{:.1}`: one digit after the decimal point. Only the name of the text is
/// stated; its digits come from the floating-point formatting of std.
#[verifier::external_body]
fn seconds_with_tenths(secs: u64, nanos: u32) -> (text: String)
    requires
        nanos < 1_000_000_000,
    ensures
        text@ == seconds_tenths_text(secs, nanos),
{
    format!("{:.1}", std::time::Duration::new(secs, nanos).as_secs_f64())
}

/// The text of a duration of `secs` seconds and `nanos` nanoseconds, with
/// `seconds` as the text of the seconds with one decimal: milliseconds under
/// a second, `seconds` under a minute, otherwise minutes and seconds, with
/// hours when there are any.
pub open spec fn duration_text_with(secs: nat, nanos: nat, seconds: Seq<char>) -> Seq<char> {
    let millis = secs * 1000 + nanos / 1_000_000;
    if millis < 1000 {
        decimal(millis) + " мс"@
    } else if secs < 60 {
        seconds + " сек"@
    } else if secs / 3600 > 0 {
        decimal(secs / 3600) + " ч "@ + two_digits((secs % 3600) / 60) + " мин "@ + two_digits(
            secs % 60,
        ) + " сек"@
    } else {
        decimal((secs % 3600) / 60) + " мин "@ + two_digits(secs % 60) + " сек"@
    }
}

/// The text `format_duration` gives for `secs` seconds and `nanos`
/// nanoseconds.
pub open spec fn duration_text(secs: nat, nanos: nat) -> Seq<char> {
    duration_text_with(secs, nanos, seconds_tenths_text(secs as u64, nanos as u32))
}

/// A human-readable duration, with `seconds` as the text of its seconds
/// with one decimal, which shows under a minute: "850 мс", "12.3 сек",
/// "4 мин 05 сек" or "1 ч 02 мин 03 сек".
pub fn format_duration_with_seconds(duration: &ElapsedTime, seconds: &str) -> (text: String)
    ensures
        text@ == duration_text_with(duration@.0, duration@.1, seconds@),
{
    let total_secs = duration.as_secs();
    let nanos = duration.subsec_nanos();
    let total_ms: u128 = (total_secs as u128) * 1000 + (nanos / 1_000_000) as u128;
    let mut text = String::new();
    if total_ms < 1_000 {
        push_decimal(&mut text, total_ms as u64);
        text.append(" мс");
        return text;
    }
    if total_secs < 60 {
        text.append(seconds);
        text.append(" сек");
        return text;
    }
    let hours = total_secs / 3_600;
    let minutes = (total_secs % 3_600) / 60;
    let rest = total_secs % 60;
    if hours > 0 {
        push_decimal(&mut text, hours);
        text.append(" ч ");
        push_two_digits(&mut text, minutes);
        text.append(" мин ");
        push_two_digits(&mut text, rest);
        text.append(" сек");
    } else {
        push_decimal(&mut text, minutes);
        text.append(" мин ");
        push_two_digits(&mut text, rest);
        text.append(" сек");
    }
    text
}

/// A human-readable duration: "850 мс", "12.3 сек", "4 мин 05 сек" or
/// "1 ч 02 мин 03 сек".
pub fn format_duration(duration: &ElapsedTime) -> (text: String)
    ensures
        text@ == duration_text(duration@.0, duration@.1),
{
    let seconds = seconds_with_tenths(duration.as_secs(), duration.subsec_nanos());
    format_duration_with_seconds(duration, seconds.as_str())
}

} // verus!
