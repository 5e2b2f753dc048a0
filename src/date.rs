//! Upload dates of chapters: relative (`"5 min ago"`) and absolute
//! (`"yyyy-MM-dd HH:mm"`) text, as seconds.

use vstd::prelude::*;
use vstd::string::StringSliceAdditionalSpecFns;

verus! {

/// True where `c` is an ASCII decimal digit.
pub open spec fn is_digit(c: u8) -> bool {
    0x30 <= c <= 0x39
}

/// True where every byte of `b` is a decimal digit.
pub open spec fn all_digits(b: Seq<u8>) -> bool {
    forall|i| 0 <= i < b.len() ==> is_digit(#[trigger] b[i])
}

/// The value of a string of decimal digits.
pub open spec fn digits_value(b: Seq<u8>) -> int
    decreases b.len(),
{
    if b.len() == 0 {
        0
    } else {
        digits_value(b.drop_last()) * 10 + (b.last() - 0x30)
    }
}

/// The integer that `b` spells in decimal, with an optional `+` or `-` sign.
pub open spec fn decimal_value(b: Seq<u8>) -> Option<int> {
    if b.len() > 0 && (b[0] == 0x2bu8 || b[0] == 0x2du8) {
        let d = b.drop_first();
        if d.len() > 0 && all_digits(d) {
            Some(
                if b[0] == 0x2du8 {
                    -digits_value(d)
                } else {
                    digits_value(d)
                },
            )
        } else {
            None
        }
    } else if b.len() > 0 && all_digits(b) {
        Some(digits_value(b))
    } else {
        None
    }
}

/// The value of `b` as a signed 64-bit decimal, where it is one.
pub open spec fn parsed_i64(b: Seq<u8>) -> Option<int> {
    match decimal_value(b) {
        Some(v) => if i64::MIN <= v <= i64::MAX {
            Some(v)
        } else {
            None
        },
        None => None,
    }
}

const TWO_POW_63: u64 = 9223372036854775808;

/// Parses the bytes `lo..hi` as a signed 64-bit decimal.
pub fn parse_i64(b: &[u8], lo: usize, hi: usize) -> (r: Option<i64>)
    requires
        lo <= hi <= b@.len(),
    ensures
        match r {
            Some(v) => parsed_i64(b@.subrange(lo as int, hi as int)) == Some(v as int),
            None => parsed_i64(b@.subrange(lo as int, hi as int)) is None,
        },
{
    let ghost s = b@.subrange(lo as int, hi as int);
    if lo == hi {
        return None;
    }
    let mut start: usize = lo;
    let mut neg = false;
    if b[lo] == 0x2bu8 || b[lo] == 0x2du8 {
        neg = b[lo] == 0x2du8;
        start = lo + 1;
        if start == hi {
            return None;
        }
        assert(s.drop_first() =~= b@.subrange(start as int, hi as int));
    } else {
        assert(s =~= b@.subrange(start as int, hi as int));
    }
    let mut acc: u64 = 0;
    let mut big = false;
    let mut i: usize = start;
    assert(b@.subrange(start as int, start as int) =~= Seq::<u8>::empty());
    while i < hi
        invariant
            lo <= start <= i <= hi <= b@.len(),
            s == b@.subrange(lo as int, hi as int),
            s.len() > 0,
            start < hi,
            neg == (s[0] == 0x2du8),
            (s[0] == 0x2bu8 || s[0] == 0x2du8) ==> s.drop_first() == b@.subrange(
                start as int,
                hi as int,
            ),
            !(s[0] == 0x2bu8 || s[0] == 0x2du8) ==> s == b@.subrange(start as int, hi as int),
            all_digits(b@.subrange(start as int, i as int)),
            !big ==> acc as int == digits_value(b@.subrange(start as int, i as int)),
            !big ==> acc <= TWO_POW_63 + 9,
            big ==> digits_value(b@.subrange(start as int, i as int)) > TWO_POW_63,
        decreases hi - i,
    {
        let ghost prev = b@.subrange(start as int, i as int);
        let c = b[i];
        if !(0x30u8 <= c && c <= 0x39u8) {
            assert(!is_digit(b@.subrange(start as int, hi as int)[i - start]));
            assert(!all_digits(b@.subrange(start as int, hi as int)));
            return None;
        }
        let ghost next = b@.subrange(start as int, i + 1);
        assert(next.drop_last() =~= prev);
        assert(digits_value(next) == digits_value(prev) * 10 + (c - 0x30));
        if !big {
            if acc <= 922337203685477580 {
                acc = acc * 10 + (c - 0x30u8) as u64;
            } else {
                big = true;
            }
        }
        i = i + 1;
        assert(all_digits(b@.subrange(start as int, i as int))) by {
            assert forall|k| 0 <= k < next.len() implies is_digit(#[trigger] next[k]) by {
                if k < prev.len() {
                    assert(next[k] == prev[k]);
                }
            }
        }
    }
    assert(b@.subrange(start as int, i as int) == b@.subrange(start as int, hi as int));
    if big {
        return None;
    }
    if neg {
        if acc == TWO_POW_63 {
            Some(i64::MIN)
        } else if acc < TWO_POW_63 {
            Some(-(acc as i64))
        } else {
            None
        }
    } else if acc < TWO_POW_63 {
        Some(acc as i64)
    } else {
        None
    }
}

/// The first index at or after `from` that holds a space, or the length.
pub open spec fn space_index(b: Seq<u8>, from: int) -> int
    decreases b.len() - from,
{
    if from >= b.len() {
        b.len() as int
    } else if b[from] == 0x20u8 {
        from
    } else {
        space_index(b, from + 1)
    }
}

fn find_space(b: &[u8], from: usize) -> (r: usize)
    requires
        from <= b@.len(),
    ensures
        r as int == space_index(b@, from as int),
        from <= r <= b@.len(),
{
    let mut i = from;
    while i < b.len() && b[i] != 0x20u8
        invariant
            from <= i <= b@.len(),
            space_index(b@, i as int) == space_index(b@, from as int),
        decreases b@.len() - i,
    {
        i = i + 1;
    }
    i
}

/// True where `b` begins with `p`.
pub open spec fn has_prefix(b: Seq<u8>, p: Seq<u8>) -> bool {
    p.len() <= b.len() && b.subrange(0, p.len() as int) == p
}

/// `"min"`
pub open spec fn min_text() -> Seq<u8> {
    seq![0x6du8, 0x69u8, 0x6eu8]
}

/// `"hour"`
pub open spec fn hour_text() -> Seq<u8> {
    seq![0x68u8, 0x6fu8, 0x75u8, 0x72u8]
}

/// `"sec"`
pub open spec fn sec_text() -> Seq<u8> {
    seq![0x73u8, 0x65u8, 0x63u8]
}

/// Seconds in the unit that a word names by its beginning; zero for an unknown unit.
pub open spec fn unit_seconds(unit: Seq<u8>) -> int {
    if has_prefix(unit, min_text()) {
        60
    } else if has_prefix(unit, hour_text()) {
        3600
    } else if has_prefix(unit, sec_text()) {
        1
    } else {
        0
    }
}

/// `-n` units before now, in seconds; zero where that does not fit in an `i64`.
pub open spec fn relative_offset(unit: Seq<u8>, n: int) -> int {
    let v = -(n * unit_seconds(unit));
    if i64::MIN <= v <= i64::MAX {
        v
    } else {
        0
    }
}

fn starts_with_at(b: &[u8], lo: usize, hi: usize, c0: u8, c1: u8, c2: u8) -> (r: bool)
    requires
        lo <= hi <= b@.len(),
    ensures
        r == has_prefix(b@.subrange(lo as int, hi as int), seq![c0, c1, c2]),
{
    let r = hi - lo >= 3 && b[lo] == c0 && b[lo + 1] == c1 && b[lo + 2] == c2;
    proof {
        let s = b@.subrange(lo as int, hi as int);
        if hi - lo >= 3 {
            if r {
                assert(s.subrange(0, 3) =~= seq![c0, c1, c2]);
            } else {
                assert(s.subrange(0, 3)[0] == b@[lo as int]);
                assert(s.subrange(0, 3)[1] == b@[lo + 1]);
                assert(s.subrange(0, 3)[2] == b@[lo + 2]);
            }
        }
    }
    r
}

/// Seconds for `amount` of the unit named by bytes `lo..hi`, negated: an offset
/// into the past from an unknown present.
pub fn simulate_relative(b: &[u8], lo: usize, hi: usize, amount: i64) -> (r: i64)
    requires
        lo <= hi <= b@.len(),
    ensures
        r as int == relative_offset(b@.subrange(lo as int, hi as int), amount as int),
{
    let ghost unit = b@.subrange(lo as int, hi as int);
    let per: i64 = if starts_with_at(b, lo, hi, 0x6du8, 0x69u8, 0x6eu8) {
        60
    } else if hi - lo >= 4 && b[lo] == 0x68u8 && b[lo + 1] == 0x6fu8 && b[lo + 2] == 0x75u8
        && b[lo + 3] == 0x72u8 {
        assert(unit.subrange(0, 4) =~= hour_text());
        3600
    } else {
        if hi - lo >= 4 {
            assert(unit.subrange(0, 4)[0] == b@[lo as int]);
            assert(unit.subrange(0, 4)[1] == b@[lo + 1]);
            assert(unit.subrange(0, 4)[2] == b@[lo + 2]);
            assert(unit.subrange(0, 4)[3] == b@[lo + 3]);
        }
        if starts_with_at(b, lo, hi, 0x73u8, 0x65u8, 0x63u8) {
            1
        } else {
            0
        }
    };
    assert(per as int == unit_seconds(unit));
    match amount.checked_mul(per) {
        Some(secs) => if secs == i64::MIN {
            0
        } else {
            -secs
        },
        None => 0,
    }
}


/// Integer division rounding toward zero, as Rust's `/` on signed integers.
pub open spec fn div_toward_zero(a: int, b: int) -> int {
    if a >= 0 {
        a / b
    } else {
        -((-a) / b)
    }
}

/// Days from 1970-01-01 to a civil date, by the proleptic Gregorian calendar
/// (Hinnant's day count; the year runs from March so that leap days come last).
pub open spec fn days_from_civil(y: int, m: int, d: int) -> int {
    let y1 = if m <= 2 {
        y - 1
    } else {
        y
    };
    let era = y1 / 400;
    let yoe = y1 - era * 400;
    let mp = if m > 2 {
        m - 3
    } else {
        m + 9
    };
    let doy = div_toward_zero(153 * mp + 2, 5) + d - 1;
    era * 146097 + yoe * 365 + yoe / 4 - yoe / 100 + doy - 719468
}

/// Seconds since the epoch of a date and a time of day.
pub open spec fn date_seconds(y: int, m: int, d: int, h: int, mi: int) -> int {
    days_from_civil(y, m, d) * 86400 + h * 3600 + mi * 60
}

/// Days since 1970-01-01 of the civil date `y-m-d`.
pub fn days_since_epoch(y: i64, m: i64, d: i64) -> (r: i64)
    requires
        -1_000_000_000_000 <= y <= 1_000_000_000_000,
        -1_000_000_000_000 <= m <= 1_000_000_000_000,
        -1_000_000_000_000 <= d <= 1_000_000_000_000,
    ensures
        r as int == days_from_civil(y as int, m as int, d as int),
{
    let y1: i64 = if m <= 2 {
        y - 1
    } else {
        y
    };
    let era: i64 = if y1 >= 0 {
        y1 / 400
    } else {
        -((399 - y1) / 400)
    };
    assert(era as int == y1 as int / 400);
    let yoe: i64 = y1 - era * 400;
    let mp: i64 = if m > 2 {
        m - 3
    } else {
        m + 9
    };
    let a: i64 = 153 * mp + 2;
    let q: i64 = if a >= 0 {
        a / 5
    } else {
        -((-a) / 5)
    };
    let doy: i64 = q + d - 1;
    let doe: i64 = yoe * 365 + yoe / 4 - yoe / 100 + doy;
    era * 146097 + doe - 719468
}

/// The value of bytes `lo..hi` as a decimal, or `default` where they are not one.
pub open spec fn field_or(b: Seq<u8>, lo: int, hi: int, default: int) -> int {
    match parsed_i64(b.subrange(lo, hi)) {
        Some(v) => v,
        None => default,
    }
}

/// True where `b` ends with `"ago"`.
pub open spec fn ends_with_ago(b: Seq<u8>) -> bool {
    b.len() >= 3 && b.subrange(b.len() - 3, b.len() as int) == seq![0x61u8, 0x67u8, 0x6fu8]
}

/// Seconds that chapter date text stands for: `"<N> <unit> ago"` gives the
/// negated offset of the unit, a text of at least 16 bytes is read as
/// `yyyy-MM-dd HH:mm` with 1970-01-01 00:00 for fields that are not numbers,
/// and anything else gives 0.
pub open spec fn chapter_date(b: Seq<u8>) -> int {
    if b.len() == 0 {
        0
    } else if ends_with_ago(b) {
        let k = space_index(b, 0);
        if k < b.len() {
            match parsed_i64(b.subrange(0, k)) {
                Some(n) => relative_offset(b.subrange(k + 1, space_index(b, k + 1)), n),
                None => 0,
            }
        } else {
            0
        }
    } else if b.len() >= 16 {
        date_seconds(
            field_or(b, 0, 4, 1970),
            field_or(b, 5, 7, 1),
            field_or(b, 8, 10, 1),
            field_or(b, 11, 13, 0),
            field_or(b, 14, 16, 0),
        )
    } else {
        0
    }
}

proof fn lemma_digits_bound(b: Seq<u8>)
    requires
        all_digits(b),
    ensures
        0 <= digits_value(b),
        b.len() <= 1 ==> digits_value(b) <= 9,
        b.len() <= 2 ==> digits_value(b) <= 99,
        b.len() <= 3 ==> digits_value(b) <= 999,
        b.len() <= 4 ==> digits_value(b) <= 9999,
    decreases b.len(),
{
    if b.len() > 0 {
        let p = b.drop_last();
        assert(all_digits(p)) by {
            assert forall|i| 0 <= i < p.len() implies is_digit(#[trigger] p[i]) by {
                assert(p[i] == b[i]);
            }
        }
        lemma_digits_bound(p);
        assert(is_digit(b[b.len() - 1]));
    }
}

proof fn lemma_short_field(b: Seq<u8>, lo: int, hi: int)
    requires
        0 <= lo <= hi <= b.len(),
        hi - lo <= 4,
    ensures
        parsed_i64(b.subrange(lo, hi)) matches Some(v) ==> -999 <= v <= 9999,
        hi - lo <= 2 ==> (parsed_i64(b.subrange(lo, hi)) matches Some(v) ==> -9 <= v <= 99),
{
    let s = b.subrange(lo, hi);
    if s.len() > 0 && (s[0] == 0x2bu8 || s[0] == 0x2du8) {
        if all_digits(s.drop_first()) {
            lemma_digits_bound(s.drop_first());
        }
    } else if all_digits(s) {
        lemma_digits_bound(s);
    }
}

fn field(b: &[u8], lo: usize, hi: usize, default: i64) -> (r: i64)
    requires
        lo <= hi <= b@.len(),
        hi - lo <= 4,
    ensures
        r as int == field_or(b@, lo as int, hi as int, default as int),
        parsed_i64(b@.subrange(lo as int, hi as int)) is Some ==> -999 <= r <= 9999,
        hi - lo <= 2 && parsed_i64(b@.subrange(lo as int, hi as int)) is Some ==> -9 <= r <= 99,
{
    proof {
        lemma_short_field(b@, lo as int, hi as int);
    }
    match parse_i64(b, lo, hi) {
        Some(v) => v,
        None => default,
    }
}

/// Parses the upload date of a chapter into seconds.
pub fn parse_chapter_date(raw: &str) -> (r: i64)
    ensures
        r as int == chapter_date(raw.spec_bytes()),
{
    let b = raw.as_bytes();
    let n = b.len();
    if n == 0 {
        return 0;
    }
    let ago = n >= 3 && b[n - 3] == 0x61u8 && b[n - 2] == 0x67u8 && b[n - 1] == 0x6fu8;
    proof {
        if n >= 3 {
            let t = b@.subrange(n - 3, n as int);
            if ago {
                assert(t =~= seq![0x61u8, 0x67u8, 0x6fu8]);
            } else {
                assert(t[0] == b@[n - 3]);
                assert(t[1] == b@[n - 2]);
                assert(t[2] == b@[n - 1]);
            }
        }
    }
    if ago {
        let k = find_space(b, 0);
        if k < n {
            if let Some(amount) = parse_i64(b, 0, k) {
                let e = find_space(b, k + 1);
                return simulate_relative(b, k + 1, e, amount);
            }
        }
        return 0;
    }
    if n >= 16 {
        let year = field(b, 0, 4, 1970);
        let month = field(b, 5, 7, 1);
        let day = field(b, 8, 10, 1);
        let hour = field(b, 11, 13, 0);
        let minute = field(b, 14, 16, 0);
        let days = days_since_epoch(year, month, day);
        return days * 86400 + hour * 3600 + minute * 60;
    }
    0
}


proof fn lemma_space_at(b: Seq<u8>, from: int, j: int)
    requires
        0 <= from <= j < b.len(),
        b[j] == 0x20u8,
        forall|i| from <= i < j ==> b[i] != 0x20u8,
    ensures
        space_index(b, from) == j,
    decreases j - from,
{
    if from < j {
        lemma_space_at(b, from + 1, j);
    }
}

/// Relative date text `"<N> <unit> ago"`, for a decimal `N` and a one-word
/// unit: a unit beginning with `sec`, `min` or `hour` gives `-N`, `-60 N` or
/// `-3600 N` seconds (where that fits in an `i64`), any other unit gives 0.
pub proof fn lemma_relative_date_text(digits: Seq<u8>, unit: Seq<u8>)
    requires
        digits.len() > 0,
        all_digits(digits),
        digits_value(digits) <= i64::MAX,
        forall|i| 0 <= i < unit.len() ==> unit[i] != 0x20u8,
    ensures
        ({
            let text = digits + seq![0x20u8] + unit + seq![0x20u8, 0x61u8, 0x67u8, 0x6fu8];
            let n = digits_value(digits);
            &&& has_prefix(unit, sec_text()) ==> chapter_date(text) == -n
            &&& has_prefix(unit, min_text()) && n * 60 <= i64::MAX ==> chapter_date(text) == -n
                * 60
            &&& has_prefix(unit, hour_text()) && n * 3600 <= i64::MAX ==> chapter_date(text)
                == -n * 3600
            &&& !has_prefix(unit, sec_text()) && !has_prefix(unit, min_text()) && !has_prefix(
                unit,
                hour_text(),
            ) ==> chapter_date(text) == 0
        }),
{
    let text = digits + seq![0x20u8] + unit + seq![0x20u8, 0x61u8, 0x67u8, 0x6fu8];
    let n = digits_value(digits);
    let k = digits.len() as int;
    let e = k + 1 + unit.len();
    assert(text.subrange(text.len() - 3, text.len() as int) =~= seq![0x61u8, 0x67u8, 0x6fu8]);
    assert(ends_with_ago(text));
    assert forall|i| 0 <= i < k implies text[i] != 0x20u8 by {
        assert(text[i] == digits[i]);
        assert(is_digit(digits[i]));
    }
    lemma_space_at(text, 0, k);
    assert forall|i| k + 1 <= i < e implies text[i] != 0x20u8 by {
        assert(text[i] == unit[i - k - 1]);
    }
    lemma_space_at(text, k + 1, e);
    assert(text.subrange(0, k) =~= digits);
    assert(is_digit(digits[0]));
    lemma_digits_bound(digits);
    assert(decimal_value(digits) == Some(n));
    assert(parsed_i64(digits) == Some(n));
    assert(text.subrange(k + 1, e) =~= unit);
    if has_prefix(unit, sec_text()) {
        assert(unit.subrange(0, 3)[0] == unit[0]);
        assert(!has_prefix(unit, min_text())) by {
            if has_prefix(unit, min_text()) {
                assert(unit.subrange(0, 3)[0] == 0x6du8);
            }
        }
        assert(!has_prefix(unit, hour_text())) by {
            if has_prefix(unit, hour_text()) {
                assert(unit.subrange(0, 4)[0] == unit[0]);
                assert(unit.subrange(0, 4)[0] == 0x68u8);
            }
        }
    }
    if has_prefix(unit, hour_text()) {
        assert(!has_prefix(unit, min_text())) by {
            if has_prefix(unit, min_text()) {
                assert(unit.subrange(0, 3)[0] == unit[0]);
                assert(unit.subrange(0, 4)[0] == unit[0]);
                assert(unit.subrange(0, 3)[0] == 0x6du8);
                assert(unit.subrange(0, 4)[0] == 0x68u8);
            }
        }
    }
}

/// The part of `days_from_civil` that counts the days of whole years.
spec fn year_days(y1: int) -> int {
    let era = y1 / 400;
    let yoe = y1 - era * 400;
    era * 146097 + yoe * 365 + yoe / 4 - yoe / 100
}

proof fn lemma_year_days_step(y1: int)
    ensures
        year_days(y1 + 1) >= year_days(y1) + 364,
{
    lemma_year_days_exact(y1);
}

proof fn lemma_year_days_exact(y1: int)
    ensures
        year_days(y1 + 1) == year_days(y1) + 365 + if is_leap_year(y1 + 1) {
            1int
        } else {
            0int
        },
{
    let era = y1 / 400;
    let yoe = y1 - era * 400;
    assert(0 <= yoe < 400);
    assert(y1 + 1 == 400 * era + (yoe + 1));
    if yoe < 399 {
        assert((y1 + 1) / 400 == era);
        assert((y1 + 1) % 4 == (yoe + 1) % 4);
        assert((y1 + 1) % 100 == (yoe + 1) % 100);
        assert((y1 + 1) % 400 == yoe + 1);
        assert((yoe + 1) / 4 == yoe / 4 + if (yoe + 1) % 4 == 0 {
            1int
        } else {
            0int
        });
        assert((yoe + 1) / 100 == yoe / 100 + if (yoe + 1) % 100 == 0 {
            1int
        } else {
            0int
        });
    } else {
        assert((y1 + 1) / 400 == era + 1);
        assert((y1 + 1) % 400 == 0);
        assert((y1 + 1) % 4 == 0);
    }
}

proof fn lemma_year_days_increasing(y1: int, y2: int)
    requires
        y1 < y2,
    ensures
        year_days(y1) < year_days(y2),
    decreases y2 - y1,
{
    lemma_year_days_step(y1);
    if y1 + 1 < y2 {
        lemma_year_days_increasing(y1 + 1, y2);
    }
}

proof fn lemma_month_step(y: int, m: int, d: int)
    requires
        1 <= m < 12,
    ensures
        days_from_civil(y, m, d) < days_from_civil(y, m + 1, d),
{
    if m == 2 {
        lemma_year_days_step(y - 1);
        assert(days_from_civil(y, 2, d) == year_days(y - 1) + 337 + d - 1 - 719468);
        assert(days_from_civil(y, 3, d) == year_days(y) + d - 1 - 719468);
    } else if m < 2 {
        assert(days_from_civil(y, 1, d) == year_days(y - 1) + 306 + d - 1 - 719468);
        assert(days_from_civil(y, 2, d) == year_days(y - 1) + 337 + d - 1 - 719468);
    } else {
        assert((153 * (m - 3) + 2) / 5 < (153 * (m - 2) + 2) / 5);
    }
}

proof fn lemma_month_increasing(y: int, m: int, m2: int, d: int)
    requires
        1 <= m < m2 <= 12,
    ensures
        days_from_civil(y, m, d) < days_from_civil(y, m2, d),
    decreases m2 - m,
{
    lemma_month_step(y, m, d);
    if m + 1 < m2 {
        lemma_month_increasing(y, m + 1, m2, d);
    }
}

/// Date and time fields in their calendar ranges.
pub open spec fn valid_date_fields(y: int, m: int, d: int, h: int, mi: int) -> bool {
    0 <= y <= 9999 && 1 <= m <= 12 && 1 <= d <= 31 && 0 <= h <= 23 && 0 <= mi <= 59
}

/// Absolute dates order as their fields do: raising any one of year, month,
/// day, hour or minute, the others fixed, raises the seconds.
pub proof fn lemma_date_seconds_monotonic(
    y: int,
    m: int,
    d: int,
    h: int,
    mi: int,
    y2: int,
    m2: int,
    d2: int,
    h2: int,
    mi2: int,
)
    requires
        valid_date_fields(y, m, d, h, mi),
        valid_date_fields(y2, m2, d2, h2, mi2),
    ensures
        y < y2 ==> date_seconds(y, m, d, h, mi) < date_seconds(y2, m, d, h, mi),
        m < m2 ==> date_seconds(y, m, d, h, mi) < date_seconds(y, m2, d, h, mi),
        d < d2 ==> date_seconds(y, m, d, h, mi) < date_seconds(y, m, d2, h, mi),
        h < h2 ==> date_seconds(y, m, d, h, mi) < date_seconds(y, m, d, h2, mi),
        mi < mi2 ==> date_seconds(y, m, d, h, mi) < date_seconds(y, m, d, h, mi2),
{
    if y < y2 {
        let a = if m <= 2 {
            y - 1
        } else {
            y
        };
        let b = if m <= 2 {
            y2 - 1
        } else {
            y2
        };
        lemma_year_days_increasing(a, b);
        assert(days_from_civil(y, m, d) < days_from_civil(y2, m, d));
    }
    if m < m2 {
        lemma_month_increasing(y, m, m2, d);
    }
}


/// The five fields that absolute date text is read as, with their defaults.
pub open spec fn date_fields(b: Seq<u8>) -> (int, int, int, int, int) {
    (
        field_or(b, 0, 4, 1970),
        field_or(b, 5, 7, 1),
        field_or(b, 8, 10, 1),
        field_or(b, 11, 13, 0),
        field_or(b, 14, 16, 0),
    )
}

/// Absolute date text orders as its fields do: of two `yyyy-MM-dd HH:mm`
/// texts with fields in their calendar ranges that differ in one field only,
/// the one with the larger field parses to more seconds.
pub proof fn lemma_date_text_monotonic(a: Seq<u8>, b: Seq<u8>)
    requires
        a.len() >= 16,
        b.len() >= 16,
        !ends_with_ago(a),
        !ends_with_ago(b),
        ({
            let (y, m, d, h, mi) = date_fields(a);
            valid_date_fields(y, m, d, h, mi)
        }),
        ({
            let (y2, m2, d2, h2, mi2) = date_fields(b);
            valid_date_fields(y2, m2, d2, h2, mi2)
        }),
        ({
            let (y, m, d, h, mi) = date_fields(a);
            let (y2, m2, d2, h2, mi2) = date_fields(b);
            ||| (y < y2 && m == m2 && d == d2 && h == h2 && mi == mi2)
            ||| (y == y2 && m < m2 && d == d2 && h == h2 && mi == mi2)
            ||| (y == y2 && m == m2 && d < d2 && h == h2 && mi == mi2)
            ||| (y == y2 && m == m2 && d == d2 && h < h2 && mi == mi2)
            ||| (y == y2 && m == m2 && d == d2 && h == h2 && mi < mi2)
        }),
    ensures
        chapter_date(a) < chapter_date(b),
{
    let (y, m, d, h, mi) = date_fields(a);
    let (y2, m2, d2, h2, mi2) = date_fields(b);
    lemma_date_seconds_monotonic(y, m, d, h, mi, y2, m2, d2, h2, mi2);
}


/// Leap years of the Gregorian calendar.
pub open spec fn is_leap_year(y: int) -> bool {
    y % 4 == 0 && (y % 100 != 0 || y % 400 == 0)
}

/// Days in month `m` of year `y`.
pub open spec fn days_in_month(y: int, m: int) -> int {
    if m == 2 {
        if is_leap_year(y) {
            29
        } else {
            28
        }
    } else if m == 4 || m == 6 || m == 9 || m == 11 {
        30
    } else {
        31
    }
}

/// The day count is that of the proleptic Gregorian calendar: 1970-01-01 is
/// day 0, and each day's successor, within a month, into the next month or
/// into the next year, comes one day later.
pub proof fn lemma_day_count_consecutive(y: int, m: int, d: int)
    requires
        1 <= m <= 12,
        1 <= d <= days_in_month(y, m),
    ensures
        days_from_civil(1970, 1, 1) == 0,
        d < days_in_month(y, m) ==> days_from_civil(y, m, d + 1) == days_from_civil(y, m, d) + 1,
        d == days_in_month(y, m) && m < 12 ==> days_from_civil(y, m + 1, 1) == days_from_civil(
            y,
            m,
            d,
        ) + 1,
        d == days_in_month(y, m) && m == 12 ==> days_from_civil(y + 1, 1, 1) == days_from_civil(
            y,
            m,
            d,
        ) + 1,
{
    assert(days_from_civil(1970, 1, 1) == year_days(1969) + 306 - 719468);
    assert(1969int / 400 == 4);
    if d == days_in_month(y, m) {
        if m == 2 {
            lemma_year_days_exact(y - 1);
            assert(days_from_civil(y, 2, d) == year_days(y - 1) + 337 + d - 1 - 719468);
            assert(days_from_civil(y, 3, 1) == year_days(y) - 719468);
        } else if m == 1 {
            assert(days_from_civil(y, 1, d) == year_days(y - 1) + 306 + d - 1 - 719468);
            assert(days_from_civil(y, 2, 1) == year_days(y - 1) + 337 - 719468);
        } else if m == 12 {
            assert(days_from_civil(y, 12, d) == year_days(y) + 275 + d - 1 - 719468);
            assert(days_from_civil(y + 1, 1, 1) == year_days(y) + 306 - 719468);
        } else {
            assert(days_from_civil(y, m, d) == year_days(y) + div_toward_zero(153 * (m - 3) + 2, 5)
                + d - 1 - 719468);
            assert(days_from_civil(y, m + 1, 1) == year_days(y) + div_toward_zero(
                153 * (m - 2) + 2,
                5,
            ) - 719468);
        }
    }
}

} // verus!
