//! Reading and writing the textual forms used at the service boundary:
//! `YYYY-MM-DD` dates, `YYYY-MM` months and decimal integer identifiers.

use crate::calendar::{CalendarDate, YearMonth};
use vstd::prelude::*;

verus! {

pub open spec fn is_digit(c: char) -> bool {
    '0' <= c && c <= '9'
}

pub open spec fn digit_value(c: char) -> int {
    (c as int) - ('0' as int)
}

pub open spec fn all_digits(s: Seq<char>) -> bool {
    forall|i: int| 0 <= i < s.len() ==> is_digit(#[trigger] s[i])
}

/// The value of a string of decimal digits, most significant first.
pub open spec fn digits_value(s: Seq<char>) -> int
    decreases s.len(),
{
    if s.len() == 0 {
        0
    } else {
        digits_value(s.drop_last()) * 10 + digit_value(s.last())
    }
}

pub open spec fn pow10(n: nat) -> int
    decreases n,
{
    if n == 0 {
        1
    } else {
        10 * pow10((n - 1) as nat)
    }
}

/// The integer written by `s`: an optional sign followed by at least one digit.
pub open spec fn integer_value(s: Seq<char>) -> Option<int> {
    if s.len() > 0 && (s[0] == '-' || s[0] == '+') {
        let rest = s.subrange(1, s.len() as int);
        if rest.len() > 0 && all_digits(rest) {
            Some(
                if s[0] == '-' {
                    -digits_value(rest)
                } else {
                    digits_value(rest)
                },
            )
        } else {
            None
        }
    } else if s.len() > 0 && all_digits(s) {
        Some(digits_value(s))
    } else {
        None
    }
}

/// The `i64` written by `s`, if `s` is an integer that fits.
pub open spec fn integer_from_text(s: Seq<char>) -> Option<i64> {
    match integer_value(s) {
        Some(v) => if i64::MIN <= v <= i64::MAX {
            Some(v as i64)
        } else {
            None
        },
        None => None,
    }
}

pub open spec fn field_ok(s: Seq<char>, from: int, to: int) -> bool {
    all_digits(s.subrange(from, to))
}

pub open spec fn field_value(s: Seq<char>, from: int, to: int) -> int {
    digits_value(s.subrange(from, to))
}

/// The date written as `YYYY-MM-DD`, if `s` is one and names a real day.
pub open spec fn date_from_text(s: Seq<char>) -> Option<CalendarDate> {
    if s.len() == 10 && s[4] == '-' && s[7] == '-' && field_ok(s, 0, 4) && field_ok(s, 5, 7)
        && field_ok(s, 8, 10) {
        let d = CalendarDate {
            year: field_value(s, 0, 4) as u16,
            month: field_value(s, 5, 7) as u8,
            day: field_value(s, 8, 10) as u8,
        };
        if d.wf() {
            Some(d)
        } else {
            None
        }
    } else {
        None
    }
}

/// The month written as `YYYY-MM`, if `s` is one.
pub open spec fn year_month_from_text(s: Seq<char>) -> Option<YearMonth> {
    if s.len() == 7 && s[4] == '-' && field_ok(s, 0, 4) && field_ok(s, 5, 7) {
        let m = YearMonth { year: field_value(s, 0, 4) as u16, month: field_value(s, 5, 7) as u8 };
        if m.wf() {
            Some(m)
        } else {
            None
        }
    } else {
        None
    }
}

pub open spec fn digit_char(n: int) -> char {
    if n == 0 {
        '0'
    } else if n == 1 {
        '1'
    } else if n == 2 {
        '2'
    } else if n == 3 {
        '3'
    } else if n == 4 {
        '4'
    } else if n == 5 {
        '5'
    } else if n == 6 {
        '6'
    } else if n == 7 {
        '7'
    } else if n == 8 {
        '8'
    } else {
        '9'
    }
}

/// The last `width` decimal digits of `n`, zero padded.
pub open spec fn padded_digits(n: int, width: nat) -> Seq<char>
    decreases width,
{
    if width == 0 {
        Seq::empty()
    } else {
        padded_digits(n / 10, (width - 1) as nat).push(digit_char(n % 10))
    }
}

pub open spec fn date_text(d: CalendarDate) -> Seq<char> {
    padded_digits(d.year as int, 4) + seq!['-'] + padded_digits(d.month as int, 2) + seq!['-']
        + padded_digits(d.day as int, 2)
}

pub proof fn lemma_digits_value_bound(s: Seq<char>)
    requires
        all_digits(s),
    ensures
        0 <= digits_value(s) < pow10(s.len()),
    decreases s.len(),
{
    if s.len() > 0 {
        let p = s.drop_last();
        assert(all_digits(p)) by {
            assert forall|i: int| 0 <= i < p.len() implies is_digit(#[trigger] p[i]) by {
                assert(p[i] == s[i]);
            }
        }
        lemma_digits_value_bound(p);
        assert(is_digit(s[s.len() - 1]));
        let a = digits_value(p);
        let b = pow10(p.len());
        assert(a * 10 + 9 < b * 10) by (nonlinear_arith)
            requires
                a < b,
        ;
    }
}

proof fn lemma_digit_char(n: int)
    requires
        0 <= n < 10,
    ensures
        is_digit(digit_char(n)),
        digit_value(digit_char(n)) == n,
{
}

proof fn lemma_padded_digits(n: int, width: nat)
    requires
        0 <= n < pow10(width),
    ensures
        padded_digits(n, width).len() == width,
        all_digits(padded_digits(n, width)),
        digits_value(padded_digits(n, width)) == n,
    decreases width,
{
    let s = padded_digits(n, width);
    if width > 0 {
        let p = pow10((width - 1) as nat);
        assert(n / 10 < p) by (nonlinear_arith)
            requires
                0 <= n < 10 * p,
        ;
        lemma_padded_digits(n / 10, (width - 1) as nat);
        lemma_digit_char(n % 10);
        let prev = padded_digits(n / 10, (width - 1) as nat);
        assert(s.drop_last() =~= prev);
        assert forall|i: int| 0 <= i < s.len() implies is_digit(#[trigger] s[i]) by {
            if i < prev.len() {
                assert(s[i] == prev[i]);
            }
        }
    }
}

/// A date written as text reads back as the same date.
pub proof fn lemma_date_text_round_trip(d: CalendarDate)
    requires
        d.wf(),
    ensures
        date_from_text(date_text(d)) == Some(d),
{
    reveal_with_fuel(pow10, 5);
    lemma_padded_digits(d.year as int, 4);
    lemma_padded_digits(d.month as int, 2);
    lemma_padded_digits(d.day as int, 2);
    let y = padded_digits(d.year as int, 4);
    let m = padded_digits(d.month as int, 2);
    let dd = padded_digits(d.day as int, 2);
    let s = date_text(d);
    assert(s.subrange(0, 4) =~= y);
    assert(s.subrange(5, 7) =~= m);
    assert(s.subrange(8, 10) =~= dd);
    assert(s[4] == '-');
    assert(s[7] == '-');
}

/// Appending digits never makes the value smaller.
proof fn lemma_digits_value_prefix(s: Seq<char>, k: int)
    requires
        all_digits(s),
        0 <= k <= s.len(),
    ensures
        digits_value(s.subrange(0, k)) <= digits_value(s),
    decreases s.len(),
{
    if k < s.len() {
        let p = s.drop_last();
        assert(all_digits(p)) by {
            assert forall|i: int| 0 <= i < p.len() implies is_digit(#[trigger] p[i]) by {
                assert(p[i] == s[i]);
            }
        }
        lemma_digits_value_prefix(p, k);
        assert(p.subrange(0, k) =~= s.subrange(0, k));
        lemma_digits_value_bound(p);
        assert(is_digit(s[s.len() - 1]));
    } else {
        assert(s.subrange(0, k) =~= s);
    }
}

/// Reads the digits at positions `from .. from + count` of `s`.
fn read_field(s: &str, from: usize, count: usize) -> (r: Option<u16>)
    requires
        from + count <= s@.len(),
        from + count <= 16,
        count <= 4,
    ensures
        r is Some <==> field_ok(s@, from as int, from + count),
        r is Some ==> r->0 == field_value(s@, from as int, from + count),
        r is Some ==> r->0 < pow10(count as nat),
{
    let mut acc: u16 = 0;
    let mut i: usize = 0;
    while i < count
        invariant
            from + count <= s@.len(),
            from + count <= 16,
            count <= 4,
            i <= count,
            field_ok(s@, from as int, from + i),
            acc == field_value(s@, from as int, from + i),
            acc < pow10(i as nat),
        decreases count - i,
    {
        let c = s.get_char(from + i);
        let ghost prev = s@.subrange(from as int, from + i);
        let ghost next = s@.subrange(from as int, from + i + 1);
        assert(next.drop_last() =~= prev);
        assert(next.last() == c);
        if !('0' <= c && c <= '9') {
            assert(!is_digit(next[i as int]));
            return None;
        }
        assert(all_digits(next)) by {
            assert forall|j: int| 0 <= j < next.len() implies is_digit(#[trigger] next[j]) by {
                if j < i {
                    assert(next[j] == prev[j]);
                }
            }
        }
        proof {
            lemma_digits_value_bound(next);
            reveal_with_fuel(pow10, 5);
        }
        acc = acc * 10 + (c as u32 - '0' as u32) as u16;
        i = i + 1;
    }
    Some(acc)
}

/// Parses a `YYYY-MM-DD` date.
pub fn parse_date(s: &str) -> (r: Option<CalendarDate>)
    ensures
        r == date_from_text(s@),
{
    if s.unicode_len() != 10 || s.get_char(4) != '-' || s.get_char(7) != '-' {
        return None;
    }
    let year = match read_field(s, 0, 4) {
        Some(v) => v,
        None => return None,
    };
    let month = match read_field(s, 5, 2) {
        Some(v) => v,
        None => return None,
    };
    let day = match read_field(s, 8, 2) {
        Some(v) => v,
        None => return None,
    };
    proof {
        reveal_with_fuel(pow10, 5);
    }
    let d = CalendarDate { year, month: month as u8, day: day as u8 };
    if year <= crate::calendar::MAX_YEAR && 1 <= d.month && d.month <= 12 && 1 <= d.day && d.day
        <= crate::calendar::days_in_month(d.year, d.month) {
        Some(d)
    } else {
        None
    }
}

/// Parses a `YYYY-MM` month.
pub fn parse_year_month(s: &str) -> (r: Option<YearMonth>)
    ensures
        r == year_month_from_text(s@),
{
    if s.unicode_len() != 7 || s.get_char(4) != '-' {
        return None;
    }
    let year = match read_field(s, 0, 4) {
        Some(v) => v,
        None => return None,
    };
    let month = match read_field(s, 5, 2) {
        Some(v) => v,
        None => return None,
    };
    proof {
        reveal_with_fuel(pow10, 5);
    }
    let m = YearMonth { year, month: month as u8 };
    if year <= crate::calendar::MAX_YEAR && 1 <= m.month && m.month <= 12 {
        Some(m)
    } else {
        None
    }
}

/// Parses a decimal integer with an optional sign, as `i64`.
pub fn parse_integer(s: &str) -> (r: Option<i64>)
    ensures
        r == integer_from_text(s@),
{
    let n = s.unicode_len();
    if n == 0 {
        return None;
    }
    let first = s.get_char(0);
    let negative = first == '-';
    let start: usize = if first == '-' || first == '+' {
        1
    } else {
        0
    };
    if start == n {
        return None;
    }
    let ghost digits = s@.subrange(start as int, n as int);
    assert(start == 0 ==> digits =~= s@);
    // 2^63, the magnitude of i64::MIN
    let limit: u64 = 0x8000_0000_0000_0000;
    let mut acc: u64 = 0;
    let mut i: usize = start;
    while i < n
        invariant
            n == s@.len(),
            n > 0,
            start < n,
            start <= i <= n,
            start == 1 <==> (s@[0] == '-' || s@[0] == '+'),
            start == 0 || start == 1,
            negative <==> s@[0] == '-',
            digits == s@.subrange(start as int, n as int),
            all_digits(digits.subrange(0, i - start)),
            acc == digits_value(digits.subrange(0, i - start)),
            acc <= limit,
            limit == 0x8000_0000_0000_0000u64,
        decreases n - i,
    {
        let c = s.get_char(i);
        let ghost k: int = i - start;
        let ghost prev = digits.subrange(0, k);
        let ghost next = digits.subrange(0, k + 1);
        assert(next.drop_last() =~= prev);
        assert(next.last() == c);
        if !('0' <= c && c <= '9') {
            assert(!all_digits(digits)) by {
                assert(digits[k] == c);
            }
            return None;
        }
        assert(all_digits(next)) by {
            assert forall|j: int| 0 <= j < next.len() implies is_digit(#[trigger] next[j]) by {
                if j < k {
                    assert(next[j] == prev[j]);
                }
            }
        }
        let d: u64 = (c as u32 - '0' as u32) as u64;
        if acc > (limit - d) / 10 {
            proof {
                assert(acc * 10 + d > limit) by (nonlinear_arith)
                    requires
                        acc > (limit - d) / 10,
                        d <= 9,
                        limit == 0x8000_0000_0000_0000u64,
                ;
                assert(digits_value(next) == acc * 10 + d);
                if all_digits(digits) {
                    lemma_digits_value_prefix(digits, k + 1);
                    assert(digits_value(digits) > limit);
                }
                if start == 1 {
                    assert(s@.subrange(1, s@.len() as int) =~= digits);
                } else {
                    assert(s@ =~= digits);
                }
            }
            return None;
        }
        acc = acc * 10 + d;
        i = i + 1;
    }
    assert(digits.subrange(0, n - start) =~= digits);
    if negative {
        Some((0 - (acc as i128)) as i64)
    } else if acc < limit {
        Some(acc as i64)
    } else {
        None
    }
}

/// The numeral for a single decimal digit.
fn digit_str(n: u32) -> (r: &'static str)
    requires
        n < 10,
    ensures
        r@ == seq![digit_char(n as int)],
{
    if n == 0 {
        proof {
            reveal_strlit("0");
        }
        "0"
    } else if n == 1 {
        proof {
            reveal_strlit("1");
        }
        "1"
    } else if n == 2 {
        proof {
            reveal_strlit("2");
        }
        "2"
    } else if n == 3 {
        proof {
            reveal_strlit("3");
        }
        "3"
    } else if n == 4 {
        proof {
            reveal_strlit("4");
        }
        "4"
    } else if n == 5 {
        proof {
            reveal_strlit("5");
        }
        "5"
    } else if n == 6 {
        proof {
            reveal_strlit("6");
        }
        "6"
    } else if n == 7 {
        proof {
            reveal_strlit("7");
        }
        "7"
    } else if n == 8 {
        proof {
            reveal_strlit("8");
        }
        "8"
    } else {
        proof {
            reveal_strlit("9");
        }
        "9"
    }
}

/// Appends the last `width` digits of `n`, zero padded.
pub fn append_padded(out: &mut String, n: u32, width: u32)
    ensures
        final(out)@ == old(out)@ + padded_digits(n as int, width as nat),
    decreases width,
{
    if width > 0 {
        append_padded(out, n / 10, width - 1);
        out.append(digit_str(n % 10));
    } else {
        assert(old(out)@ + padded_digits(n as int, 0) =~= old(out)@);
    }
}

/// Writes a date as `YYYY-MM-DD`.
pub fn format_date(d: &CalendarDate) -> (r: String)
    ensures
        r@ == date_text(*d),
{
    let mut out = String::new();
    append_padded(&mut out, d.year as u32, 4);
    proof {
        reveal_strlit("-");
    }
    out.append("-");
    append_padded(&mut out, d.month as u32, 2);
    out.append("-");
    append_padded(&mut out, d.day as u32, 2);
    assert(out@ =~= date_text(*d));
    out
}

/// Writes the zero-padded decimal form of `n` in `width` digits.
pub fn padded(n: u32, width: u32) -> (r: String)
    ensures
        r@ == padded_digits(n as int, width as nat),
{
    let mut out = String::new();
    append_padded(&mut out, n, width);
    assert(out@ =~= padded_digits(n as int, width as nat));
    out
}

} // verus!
