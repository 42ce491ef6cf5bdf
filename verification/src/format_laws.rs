//! What the number texts say: read back as decimal numbers, they give the
//! values they were made from.
use vstd::prelude::*;
use crate::error::{CacheError, cache_error_text};
use crate::format::{cost_text, decimal, digit_char, duration_text, seconds_tenths_text, two_digits};
use crate::io::count_text;
use crate::progress::bar_text;

verus! {

/// Every character of `s` is a decimal digit.
pub open spec fn all_digits(s: Seq<char>) -> bool {
    forall|i: int| 0 <= i < s.len() ==> 48 <= #[trigger] (s[i] as int) <= 57
}

/// The number that a text of decimal digits denotes, read from left to
/// right.
pub open spec fn digits_value(s: Seq<char>) -> int
    decreases s.len(),
{
    if s.len() == 0 {
        0
    } else {
        10 * digits_value(s.drop_last()) + (s.last() as int - 48)
    }
}

/// A number written the usual way: at least one digit, and no leading zero
/// unless the number is 0 itself.
pub open spec fn plain_number(s: Seq<char>) -> bool {
    &&& s.len() >= 1
    &&& all_digits(s)
    &&& (s[0] != '0' || s.len() == 1)
}

proof fn lemma_digit_char(d: nat)
    requires
        d < 10,
    ensures
        digit_char(d) as int == 48 + d,
{
}

/// A field of exactly two digits that reads as `value`.
pub open spec fn two_digit_field(s: Seq<char>, value: nat) -> bool {
    &&& s.len() == 2
    &&& all_digits(s)
    &&& digits_value(s) == value
}

/// A one-digit text reads as its digit.
proof fn lemma_single_digit(s: Seq<char>)
    requires
        s.len() == 1,
    ensures
        digits_value(s) == s[0] as int - 48,
{
    assert(s.drop_last() =~= Seq::<char>::empty());
    assert(digits_value(Seq::<char>::empty()) == 0);
}

/// The decimal notation of `n` is a number written the usual way, and it
/// reads back as `n`.
pub proof fn lemma_decimal_reads_back(n: nat)
    ensures
        plain_number(decimal(n)),
        digits_value(decimal(n)) == n,
    decreases n,
{
    if n < 10 {
        lemma_digit_char(n);
        lemma_single_digit(decimal(n));
    } else {
        let high = decimal(n / 10);
        lemma_decimal_reads_back(n / 10);
        lemma_digit_char(n % 10);
        let t = decimal(n);
        assert(t == high.push(digit_char(n % 10)));
        assert(t.drop_last() =~= high);
        assert(t[0] == high[0]);
        if high.len() == 1 {
            lemma_single_digit(high);
        }
        assert forall|i: int| 0 <= i < t.len() implies 48 <= #[trigger] (t[i] as int) <= 57 by {
            if i < high.len() {
                assert(t[i] == high[i]);
                assert(48 <= (high[i] as int) <= 57);
            }
        }
    }
}

/// A padded field of a duration is exactly two digits that read back as its
/// value, for every value below 100; from 10 up it is the plain decimal
/// notation.
pub proof fn lemma_two_digits_reads_back(n: nat)
    requires
        n < 100,
    ensures
        two_digit_field(two_digits(n), n),
        n >= 10 ==> two_digits(n) == decimal(n),
{
    let t = two_digits(n);
    if n < 10 {
        lemma_digit_char(n);
        assert(t == seq!['0', digit_char(n)]);
        assert(t.drop_last() =~= seq!['0']);
        lemma_single_digit(seq!['0']);
    } else {
        lemma_decimal_reads_back(n);
        lemma_decimal_reads_back(n / 10);
        assert(decimal(n) == decimal(n / 10).push(digit_char(n % 10)));
        assert(decimal(n / 10) == seq![digit_char(n / 10)]);
    }
}

/// The text of a cost of `half_points` half-points shows its whole points
/// as a number written the usual way, followed by `.5` exactly when a half
/// point is left over.
pub proof fn lemma_cost_text_reads_back(half_points: nat)
    ensures
        half_points % 2 == 0 ==> plain_number(cost_text(half_points)) && digits_value(
            cost_text(half_points),
        ) == half_points / 2,
        half_points % 2 == 1 ==> ({
            let t = cost_text(half_points);
            let whole = t.subrange(0, t.len() - 2);
            &&& t.len() >= 3
            &&& t.subrange(t.len() - 2, t.len() as int) == ".5"@
            &&& plain_number(whole)
            &&& digits_value(whole) == half_points / 2
        }),
{
    lemma_decimal_reads_back(half_points / 2);
    if half_points % 2 == 1 {
        let d = decimal(half_points / 2);
        let t = cost_text(half_points);
        reveal_strlit(".5");
        assert(t == d + ".5"@);
        assert(t.subrange(0, t.len() - 2) =~= d);
        assert(t.subrange(t.len() - 2, t.len() as int) =~= ".5"@);
    }
}

/// The text of a duration of `secs` seconds and `nanos` nanoseconds (below
/// a second), read back field by field: the milliseconds under a second;
/// the seconds with one decimal under a minute; otherwise the minutes, or
/// the hours and then the minutes as two digits, and the seconds as two
/// digits, each field reading back as its part of the duration.
pub proof fn lemma_duration_text_reads_back(secs: nat, nanos: nat)
    requires
        nanos < 1_000_000_000,
    ensures
        secs == 0 ==> ({
            let t = duration_text(secs, nanos);
            let n = t.len() as int;
            &&& n > 3
            &&& t.subrange(n - 3, n) == " мс"@
            &&& plain_number(t.subrange(0, n - 3))
            &&& digits_value(t.subrange(0, n - 3)) == nanos / 1_000_000
        }),
        1 <= secs < 60 ==> duration_text(secs, nanos) == seconds_tenths_text(secs as u64, nanos as u32)
            + " сек"@,
        60 <= secs < 3600 ==> ({
            let t = duration_text(secs, nanos);
            let n = t.len() as int;
            &&& n > 11
            &&& t.subrange(n - 4, n) == " сек"@
            &&& two_digit_field(t.subrange(n - 6, n - 4), secs % 60)
            &&& t.subrange(n - 11, n - 6) == " мин "@
            &&& plain_number(t.subrange(0, n - 11))
            &&& digits_value(t.subrange(0, n - 11)) == secs / 60
        }),
        3600 <= secs ==> ({
            let t = duration_text(secs, nanos);
            let n = t.len() as int;
            &&& n > 16
            &&& t.subrange(n - 4, n) == " сек"@
            &&& two_digit_field(t.subrange(n - 6, n - 4), secs % 60)
            &&& t.subrange(n - 11, n - 6) == " мин "@
            &&& two_digit_field(t.subrange(n - 13, n - 11), (secs % 3600) / 60)
            &&& t.subrange(n - 16, n - 13) == " ч "@
            &&& plain_number(t.subrange(0, n - 16))
            &&& digits_value(t.subrange(0, n - 16)) == secs / 3600
        }),
{
    reveal_strlit(" мс");
    reveal_strlit(" сек");
    reveal_strlit(" мин ");
    reveal_strlit(" ч ");
    let t = duration_text(secs, nanos);
    let n = t.len() as int;
    if secs == 0 {
        let d = decimal(nanos / 1_000_000);
        lemma_decimal_reads_back(nanos / 1_000_000);
        assert(t == d + " мс"@);
        assert(t.subrange(n - 3, n) =~= " мс"@);
        assert(t.subrange(0, n - 3) =~= d);
    } else if secs < 60 {
    } else if secs < 3600 {
        let m = decimal(secs / 60);
        let ss = two_digits(secs % 60);
        lemma_decimal_reads_back(secs / 60);
        lemma_two_digits_reads_back(secs % 60);
        assert((secs % 3600) / 60 == secs / 60);
        assert(t == m + " мин "@ + ss + " сек"@);
        assert(t.subrange(n - 4, n) =~= " сек"@);
        assert(t.subrange(n - 6, n - 4) =~= ss);
        assert(t.subrange(n - 11, n - 6) =~= " мин "@);
        assert(t.subrange(0, n - 11) =~= m);
    } else {
        let h = decimal(secs / 3600);
        let mm = two_digits((secs % 3600) / 60);
        let ss = two_digits(secs % 60);
        lemma_decimal_reads_back(secs / 3600);
        lemma_two_digits_reads_back((secs % 3600) / 60);
        lemma_two_digits_reads_back(secs % 60);
        assert(t == h + " ч "@ + mm + " мин "@ + ss + " сек"@);
        assert(t.subrange(n - 4, n) =~= " сек"@);
        assert(t.subrange(n - 6, n - 4) =~= ss);
        assert(t.subrange(n - 11, n - 6) =~= " мин "@);
        assert(t.subrange(n - 13, n - 11) =~= mm);
        assert(t.subrange(n - 16, n - 13) =~= " ч "@);
        assert(t.subrange(0, n - 16) =~= h);
    }
}

/// A count label shows the chosen count as given, a slash, the total as a
/// number written the usual way that reads back as `total`, and " шт".
pub proof fn lemma_count_text_reads_back(shown: Seq<char>, total: nat)
    ensures
        ({
            let t = count_text(shown, total);
            let n = t.len() as int;
            let k = shown.len() as int;
            &&& n >= k + 5
            &&& t.subrange(0, k) == shown
            &&& t[k] == '/'
            &&& t.subrange(n - 3, n) == " шт"@
            &&& plain_number(t.subrange(k + 1, n - 3))
            &&& digits_value(t.subrange(k + 1, n - 3)) == total
        }),
{
    reveal_strlit("/");
    reveal_strlit(" шт");
    let d = decimal(total);
    lemma_decimal_reads_back(total);
    let t = count_text(shown, total);
    let n = t.len() as int;
    let k = shown.len() as int;
    assert(t == shown + "/"@ + d + " шт"@);
    assert(t.subrange(0, k) =~= shown);
    assert(t[k] == '/');
    assert(t.subrange(n - 3, n) =~= " шт"@);
    assert(t.subrange(k + 1, n - 3) =~= d);
}

/// The progress bar has 10 cells; a cell is `#` exactly when it is among
/// the first `filled` ones, and a space otherwise.
pub proof fn lemma_bar_text_cells(filled: nat)
    ensures
        bar_text(filled).len() == 10,
        forall|i: int| 0 <= i < 10 ==> (#[trigger] bar_text(filled)[i] == '#') == (i < filled),
        forall|i: int| 0 <= i < 10 ==> #[trigger] bar_text(filled)[i] == '#' || bar_text(filled)[i] == ' ',
{
}

/// The message of a cache of the wrong size shows both sizes as numbers
/// written the usual way that read back as the expected and the actual
/// size.
pub proof fn lemma_invalid_size_message_reads_back(path: String, expected: usize, actual: usize)
    ensures
        exists|e: Seq<char>, a: Seq<char>|
            #![trigger plain_number(e), plain_number(a)]
            plain_number(e) && digits_value(e) == expected && plain_number(a) && digits_value(a)
                == actual && cache_error_text(CacheError::InvalidSize { path, expected, actual })
                == "кэш '"@ + path@ + "' имеет неверный размер: ожидалось "@ + e + ", получено "@ + a,
{
    lemma_decimal_reads_back(expected as nat);
    lemma_decimal_reads_back(actual as nat);
}

} // verus!
