use vstd::prelude::*;
use vstd::string::{StrSliceExecFns, StringExecFns};

verus! {

/// Why a date string was refused.
#[derive(Debug, Clone, PartialEq, Eq)]
pub enum DateSeedError {
    /// Not three fields separated by `-`.
    BadFormat(String),
    /// A field is no number, a month or day is out of range, or the date is
    /// before 1970-01-01.
    BadValue(String),
}

/// Unicode white space (the `White_Space` property).
pub open spec fn is_ws(c: char) -> bool {
    ('\t' <= c <= '\r') || c == ' ' || c == '\u{85}' || c == '\u{a0}' || c == '\u{1680}' || (
    '\u{2000}' <= c <= '\u{200a}') || c == '\u{2028}' || c == '\u{2029}' || c == '\u{202f}' || c
        == '\u{205f}' || c == '\u{3000}'
}

/// Is `c` white space?
fn char_is_ws(c: char) -> (r: bool)
    ensures
        r == is_ws(c),
{
    ('\t' <= c && c <= '\r') || c == ' ' || c == '\u{85}' || c == '\u{a0}' || c == '\u{1680}' || (
    '\u{2000}' <= c && c <= '\u{200a}') || c == '\u{2028}' || c == '\u{2029}' || c == '\u{202f}'
        || c == '\u{205f}' || c == '\u{3000}'
}

/// `s` without leading and trailing white space: the subrange from `a` to `b`.
pub open spec fn trimmed_at(s: Seq<char>, a: int, b: int) -> bool {
    &&& 0 <= a <= b <= s.len()
    &&& forall|i: int| 0 <= i < a ==> is_ws(#[trigger] s[i])
    &&& forall|i: int| b <= i < s.len() ==> is_ws(#[trigger] s[i])
    &&& a < b ==> !is_ws(s[a]) && !is_ws(s[b - 1])
    &&& a == b ==> b == s.len()
}

/// Value of a string of ASCII digits.
pub open spec fn digits_value(f: Seq<char>) -> int
    decreases f.len(),
{
    if f.len() == 0 {
        0
    } else {
        digits_value(f.drop_last()) * 10 + (f.last() as int - '0' as int)
    }
}

/// Every character is an ASCII digit.
pub open spec fn all_digits(f: Seq<char>) -> bool {
    forall|i: int| 0 <= i < f.len() ==> '0' <= #[trigger] f[i] <= '9'
}

/// A number field: an optional `+`, then one or more ASCII digits.
pub open spec fn field_digits(f: Seq<char>) -> Seq<char> {
    if f.len() > 0 && f[0] == '+' {
        f.drop_first()
    } else {
        f
    }
}

/// The field is a well-formed number.
pub open spec fn field_ok(f: Seq<char>) -> bool {
    field_digits(f).len() > 0 && all_digits(field_digits(f))
}

/// Days from 1970-01-01 to the given civil date (proleptic Gregorian).
pub open spec fn civil_days(year: int, month: int, day: int) -> int {
    let y = if month <= 2 {
        year - 1
    } else {
        year
    };
    let era = (if y >= 0 {
        y
    } else {
        y - 399
    }) / 400;
    let yoe = y - era * 400;
    let mp = if month > 2 {
        month - 3
    } else {
        month + 9
    };
    let doy = (153 * mp + 2) / 5 + day - 1;
    let doe = yoe * 365 + yoe / 4 - yoe / 100 + doy;
    era * 146097 + doe - 719468
}

/// Days from 1970-01-01 to the given date.
pub fn days_from_civil(year: i32, month: u32, day: u32) -> (r: i64)
    requires
        1 <= month <= 12,
        1 <= day <= 31,
    ensures
        r == civil_days(year as int, month as int, day as int),
{
    let y: i64 = year as i64 - if month <= 2 {
        1
    } else {
        0
    };
    let m = month as i64;
    let d = day as i64;
    let base: i64 = if y >= 0 {
        y
    } else {
        y - 399
    };
    // Floor division of a possibly negative value, kept non-negative in exec code.
    let shifted: i64 = base + 400 * 6_000_000;
    let era: i64 = shifted / 400 - 6_000_000;
    proof {
        let q = base as int / 400;
        let rem = base as int % 400;
        vstd::arithmetic::div_mod::lemma_fundamental_div_mod(base as int, 400);
        vstd::arithmetic::div_mod::lemma_mod_bound(base as int, 400);
        vstd::arithmetic::div_mod::lemma_fundamental_div_mod_converse(
            shifted as int,
            400,
            q + 6_000_000,
            rem,
        );
    }
    let yoe = y - era * 400;
    let mp = m + if m > 2 {
        -3
    } else {
        9
    };
    let doy = (153 * mp + 2) / 5 + d - 1;
    let doe = yoe * 365 + yoe / 4 - yoe / 100 + doy;
    era * 146097 + doe - 719468
}

/// Appending digits never lowers the value.
proof fn lemma_digits_grow(s: Seq<char>, start: int, i: int, j: int)
    requires
        0 <= start <= i <= j <= s.len(),
        all_digits(s.subrange(start, j)),
    ensures
        digits_value(s.subrange(start, j)) >= digits_value(s.subrange(start, i)),
    decreases j - i,
{
    if j > i {
        assert(s.subrange(start, j).drop_last() =~= s.subrange(start, j - 1));
        assert(all_digits(s.subrange(start, j - 1))) by {
            assert forall|q: int| 0 <= q < j - 1 - start implies '0' <= #[trigger] s.subrange(start, j - 1)[q]
                <= '9' by {
                assert(s.subrange(start, j - 1)[q] == s.subrange(start, j)[q]);
            }
        }
        lemma_digits_grow(s, start, i, j - 1);
        assert(s.subrange(start, j)[j - 1 - start] == s[j - 1]);
        lemma_digits_nonneg(s.subrange(start, j - 1));
    }
}

/// Digit strings have non-negative values.
proof fn lemma_digits_nonneg(f: Seq<char>)
    requires
        all_digits(f),
    ensures
        digits_value(f) >= 0,
    decreases f.len(),
{
    if f.len() > 0 {
        assert(all_digits(f.drop_last())) by {
            assert forall|q: int| 0 <= q < f.len() - 1 implies '0' <= #[trigger] f.drop_last()[q] <= '9' by {
                assert(f.drop_last()[q] == f[q]);
            }
        }
        lemma_digits_nonneg(f.drop_last());
        assert(f[f.len() - 1] >= '0');
    }
}

/// The field `s[lo..hi]` as a number no larger than `max`, if it is one.
fn parse_field(s: &Vec<char>, lo: usize, hi: usize, max: u64) -> (r: Option<u64>)
    requires
        lo <= hi <= s@.len(),
        9 <= max <= u32::MAX,
    ensures
        r.is_some() <==> field_ok(s@.subrange(lo as int, hi as int)) && digits_value(
            field_digits(s@.subrange(lo as int, hi as int)),
        ) <= max,
        r.is_some() ==> r.unwrap() == digits_value(field_digits(s@.subrange(lo as int, hi as int))),
{
    let ghost f = s@.subrange(lo as int, hi as int);
    let start = if lo < hi && s[lo] == '+' {
        lo + 1
    } else {
        lo
    };
    let ghost g = s@.subrange(start as int, hi as int);
    proof {
        assert(field_digits(f) =~= g);
    }
    if start == hi {
        return None;
    }
    let mut value: u64 = 0;
    let mut i = start;
    while i < hi
        invariant
            start <= i <= hi,
            hi <= s@.len(),
            g == s@.subrange(start as int, hi as int),
            field_digits(s@.subrange(lo as int, hi as int)) == g,
            g.len() > 0,
            9 <= max <= u32::MAX,
            all_digits(s@.subrange(start as int, i as int)),
            value == digits_value(s@.subrange(start as int, i as int)),
            value <= max,
        decreases hi - i,
    {
        let c = s[i];
        proof {
            assert(s@.subrange(start as int, i + 1).drop_last() =~= s@.subrange(start as int, i as int));
        }
        if !('0' <= c && c <= '9') {
            proof {
                assert(g[i - start] == c);
                assert(!all_digits(g));
            }
            return None;
        }
        let digit = (c as u32 - '0' as u32) as u64;
        assert(digit <= 9);
        if value > (max - digit) / 10 {
            proof {
                assert(value * 10 + digit > max) by (nonlinear_arith)
                    requires
                        value > (max - digit) / 10,
                        digit <= 9,
                        max >= 9,
                ;
                assert(s@.subrange(start as int, i + 1).last() == c);
                assert(digits_value(s@.subrange(start as int, i + 1)) == value * 10 + digit);
                if all_digits(g) {
                    lemma_digits_grow(s@, start as int, i + 1, hi as int);
                }
            }
            return None;
        }
        value = value * 10 + digit;
        i = i + 1;
    }
    proof {
        assert(s@.subrange(start as int, i as int) =~= g);
    }
    Some(value)
}

/// The shape of a date string `s`: trimmed to `s[a..b]`, which holds exactly
/// two dashes, at `p1 < p2`.
pub open spec fn date_layout(s: Seq<char>, a: int, b: int, p1: int, p2: int) -> bool {
    &&& trimmed_at(s, a, b)
    &&& a <= p1 < p2 < b
    &&& s[p1] == '-'
    &&& s[p2] == '-'
    &&& forall|i: int| a <= i < b && #[trigger] s[i] == '-' ==> i == p1 || i == p2
}

/// The year, month and day fields of a date string of that shape.
pub open spec fn year_of(s: Seq<char>, a: int, p1: int) -> int {
    digits_value(field_digits(s.subrange(a, p1)))
}

/// The month field.
pub open spec fn month_of(s: Seq<char>, p1: int, p2: int) -> int {
    digits_value(field_digits(s.subrange(p1 + 1, p2)))
}

/// The day field.
pub open spec fn day_of(s: Seq<char>, p2: int, b: int) -> int {
    digits_value(field_digits(s.subrange(p2 + 1, b)))
}

/// The fields are numbers of their types, month and day are in range, and the
/// date is not before 1970-01-01.
pub open spec fn date_fields_ok(s: Seq<char>, a: int, b: int, p1: int, p2: int) -> bool {
    &&& field_ok(s.subrange(a, p1))
    &&& field_ok(s.subrange(p1 + 1, p2))
    &&& field_ok(s.subrange(p2 + 1, b))
    &&& year_of(s, a, p1) <= i32::MAX
    &&& month_of(s, p1, p2) <= u32::MAX
    &&& day_of(s, p2, b) <= u32::MAX
    &&& 1 <= month_of(s, p1, p2) <= 12
    &&& 1 <= day_of(s, p2, b) <= 31
    &&& civil_days(year_of(s, a, p1), month_of(s, p1, p2), day_of(s, p2, b)) >= 0
}

/// A string has at most one trimmed range.
proof fn lemma_trim_unique(s: Seq<char>, a: int, b: int, c: int, d: int)
    requires
        trimmed_at(s, a, b),
        trimmed_at(s, c, d),
    ensures
        a == c && b == d,
{
    if a < c {
        assert(is_ws(s[a]));
    } else if c < a {
        assert(is_ws(s[c]));
    }
    if b < d {
        assert(is_ws(s[d - 1]));
    } else if d < b {
        assert(is_ws(s[b - 1]));
    }
}

/// The seed of a date string `YYYY-MM-DD` (surrounding white space allowed,
/// each field an optional `+` and decimal digits): the days from 1970-01-01.
pub fn date_to_seed_ymd(date_ymd: &str) -> (r: Result<u64, DateSeedError>)
    ensures
        r is Ok ==> exists|a: int, b: int, p1: int, p2: int|
            date_layout(date_ymd@, a, b, p1, p2) && date_fields_ok(date_ymd@, a, b, p1, p2)
                && r.unwrap() == civil_days(
                year_of(date_ymd@, a, p1),
                month_of(date_ymd@, p1, p2),
                day_of(date_ymd@, p2, b),
            ),
        (exists|a: int, b: int, p1: int, p2: int|
            date_layout(date_ymd@, a, b, p1, p2) && date_fields_ok(date_ymd@, a, b, p1, p2))
            ==> r is Ok,
        (r matches Err(DateSeedError::BadFormat(_))) <==> !exists|a: int, b: int, p1: int, p2: int|
            date_layout(date_ymd@, a, b, p1, p2),
        r matches Err(DateSeedError::BadFormat(text)) ==> text@ == date_ymd@,
{
    let ghost s = date_ymd@;
    let n = date_ymd.unicode_len();
    let mut chars: Vec<char> = Vec::new();
    let mut i: usize = 0;
    while i < n
        invariant
            n == s.len(),
            s == date_ymd@,
            i <= n,
            chars@ == s.subrange(0, i as int),
        decreases n - i,
    {
        chars.push(date_ymd.get_char(i));
        i = i + 1;
    }
    assert(chars@ =~= s);
    let mut a: usize = 0;
    while a < n && char_is_ws(chars[a])
        invariant
            n == s.len(),
            chars@ == s,
            a <= n,
            forall|q: int| 0 <= q < a ==> is_ws(#[trigger] s[q]),
        decreases n - a,
    {
        a = a + 1;
    }
    let mut b: usize = n;
    while b > a && char_is_ws(chars[b - 1])
        invariant
            n == s.len(),
            chars@ == s,
            a <= b <= n,
            a < n ==> !is_ws(s[a as int]),
            forall|q: int| b <= q < n ==> is_ws(#[trigger] s[q]),
        decreases b,
    {
        b = b - 1;
    }
    proof {
        assert(trimmed_at(s, a as int, b as int));
    }
    let mut count: usize = 0;
    let mut p1: usize = 0;
    let mut p2: usize = 0;
    let mut p3: usize = 0;
    let mut k: usize = a;
    while k < b
        invariant
            chars@ == s,
            a <= k <= b <= s.len(),
            count <= 3,
            count == 0 ==> forall|q: int| a <= q < k ==> #[trigger] s[q] != '-',
            count >= 1 ==> a <= p1 < k && s[p1 as int] == '-',
            count == 1 ==> forall|q: int| a <= q < k && #[trigger] s[q] == '-' ==> q == p1,
            count >= 2 ==> p1 < p2 < k && s[p2 as int] == '-',
            count == 2 ==> forall|q: int| a <= q < k && #[trigger] s[q] == '-' ==> q == p1 || q == p2,
            count == 3 ==> p2 < p3 < k && s[p3 as int] == '-',
        decreases b - k,
    {
        if chars[k] == '-' && count < 3 {
            if count == 0 {
                p1 = k;
            } else if count == 1 {
                p2 = k;
            } else {
                p3 = k;
            }
            count = count + 1;
        }
        k = k + 1;
    }
    if count != 2 {
        proof {
            assert forall|c: int, d: int, q1: int, q2: int| !date_layout(s, c, d, q1, q2) by {
                if date_layout(s, c, d, q1, q2) {
                    lemma_trim_unique(s, a as int, b as int, c, d);
                    assert(s[q1] == '-' && s[q2] == '-');
                    if count == 3 {
                        assert(s[p1 as int] == '-' && s[p2 as int] == '-' && s[p3 as int] == '-');
                    }
                }
            }
        }
        return Err(DateSeedError::BadFormat(String::from_str(date_ymd)));
    }
    proof {
        assert(date_layout(s, a as int, b as int, p1 as int, p2 as int));
        assert forall|c: int, d: int, q1: int, q2: int| date_layout(s, c, d, q1, q2) implies c == a
            && d == b && q1 == p1 && q2 == p2 by {
            lemma_trim_unique(s, a as int, b as int, c, d);
            assert(s[q1] == '-' && s[q2] == '-');
            assert(s[p1 as int] == '-' && s[p2 as int] == '-');
        }
    }
    let year = match parse_field(&chars, a, p1, 0x7fff_ffff) {
        Some(v) => v,
        None => {
            let mut msg = String::from_str("year=");
            msg.append(date_ymd.substring_char(a, p1));
            return Err(DateSeedError::BadValue(msg));
        },
    };
    let month = match parse_field(&chars, p1 + 1, p2, 0xffff_ffff) {
        Some(v) => v,
        None => {
            let mut msg = String::from_str("month=");
            msg.append(date_ymd.substring_char(p1 + 1, p2));
            return Err(DateSeedError::BadValue(msg));
        },
    };
    let day = match parse_field(&chars, p2 + 1, b, 0xffff_ffff) {
        Some(v) => v,
        None => {
            let mut msg = String::from_str("day=");
            msg.append(date_ymd.substring_char(p2 + 1, b));
            return Err(DateSeedError::BadValue(msg));
        },
    };
    if !(1 <= month && month <= 12) || !(1 <= day && day <= 31) {
        let mut msg = String::from_str("month/day out of range: ");
        msg.append(date_ymd);
        return Err(DateSeedError::BadValue(msg));
    }
    let days = days_from_civil(year as i32, month as u32, day as u32);
    if days < 0 {
        let mut msg = String::from_str("date before 1970-01-01: ");
        msg.append(date_ymd);
        return Err(DateSeedError::BadValue(msg));
    }
    Ok(days as u64)
}

} // verus!
