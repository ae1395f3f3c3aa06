//! `YYYY-MM-DD` dates as text: validation, parsing, successive days, and the
//! current date.
use vstd::prelude::*;
use crate::text::{chars_of, is_digit, seq_lt, str_lt, string_of};

verus! {

pub open spec fn digit_val(c: char) -> nat {
    ((c as u32) - ('0' as u32)) as nat
}

/// Decimal value of a run of digits.
pub open spec fn dec_value(s: Seq<char>) -> nat
    decreases s.len(),
{
    if s.len() == 0 {
        0
    } else {
        dec_value(s.drop_last()) * 10 + digit_val(s.last())
    }
}

pub open spec fn all_digits(s: Seq<char>) -> bool {
    forall|i: int| 0 <= i < s.len() ==> is_digit(#[trigger] s[i])
}

/// What `u32::from_str` accepts: an optional `+`, then at least one ASCII digit,
/// with a value below 2^32.
pub open spec fn parse_u32(s: Seq<char>) -> Option<nat> {
    let d = if s.len() > 0 && s[0] == '+' {
        s.skip(1)
    } else {
        s
    };
    if d.len() > 0 && all_digits(d) && dec_value(d) <= u32::MAX {
        Some(dec_value(d))
    } else {
        None
    }
}

pub open spec fn leap(y: nat) -> bool {
    (y % 4 == 0 && y % 100 != 0) || y % 400 == 0
}

/// Days in month `m` of year `y`; 0 for a month outside 1 to 12.
pub open spec fn dim(y: nat, m: nat) -> nat {
    if m == 1 || m == 3 || m == 5 || m == 7 || m == 8 || m == 10 || m == 12 {
        31
    } else if m == 4 || m == 6 || m == 9 || m == 11 {
        30
    } else if m == 2 {
        if leap(y) {
            29
        } else {
            28
        }
    } else {
        0
    }
}

pub open spec fn year_of(s: Seq<char>) -> nat {
    dec_value(s.take(4))
}

pub open spec fn month_of(s: Seq<char>) -> nat {
    dec_value(s.subrange(5, 7))
}

pub open spec fn day_of(s: Seq<char>) -> nat {
    dec_value(s.subrange(8, 10))
}

/// A real calendar date written `YYYY-MM-DD` in ASCII digits.
pub open spec fn valid_date(s: Seq<char>) -> bool {
    &&& s.len() == 10
    &&& crate::markers::date_at(s, 0)
    &&& 1 <= month_of(s) <= 12
    &&& 1 <= day_of(s) <= dim(year_of(s), month_of(s))
}

proof fn lemma_dec_value_bound(s: Seq<char>)
    requires
        all_digits(s),
    ensures
        dec_value(s) < pow10(s.len()),
    decreases s.len(),
{
    if s.len() > 0 {
        lemma_dec_value_bound(s.drop_last());
        assert(is_digit(s[s.len() - 1]));
    }
}

pub open spec fn pow10(n: nat) -> nat
    decreases n,
{
    if n == 0 {
        1
    } else {
        10 * pow10((n - 1) as nat)
    }
}

fn digit(c: char) -> (r: u32)
    requires
        is_digit(c),
    ensures
        r == digit_val(c),
        r < 10,
{
    (c as u32) - ('0' as u32)
}

/// Value of the digits `s[lo..hi]`, at most four of them.
fn small_value(s: &Vec<char>, lo: usize, hi: usize) -> (r: u32)
    requires
        lo <= hi <= s@.len(),
        hi - lo <= 4,
        all_digits(s@.subrange(lo as int, hi as int)),
    ensures
        r == dec_value(s@.subrange(lo as int, hi as int)),
{
    let mut v: u32 = 0;
    let mut k = lo;
    while k < hi
        invariant
            lo <= k <= hi <= s@.len(),
            hi - lo <= 4,
            all_digits(s@.subrange(lo as int, hi as int)),
            v == dec_value(s@.subrange(lo as int, k as int)),
            v < pow10((k - lo) as nat),
        decreases hi - k,
    {
        proof {
            assert(s@.subrange(lo as int, k + 1).drop_last() =~= s@.subrange(lo as int, k as int));
            assert(s@.subrange(lo as int, hi as int)[k - lo] == s@[k as int]);
            assert(pow10((k + 1 - lo) as nat) == 10 * pow10((k - lo) as nat));
            assert(pow10(0) == 1);
            assert(pow10(1) == 10);
            assert(pow10(2) == 100);
            assert(pow10(3) == 1000);
            assert(pow10(4) == 10000);
        }
        let d = digit(s[k]);
        v = v * 10 + d;
        k = k + 1;
    }
    v
}

/// Whether `year` is a leap year in the Gregorian calendar.
pub fn is_leap_year(year: u32) -> (r: bool)
    ensures
        r == leap(year as nat),
{
    (year % 4 == 0 && year % 100 != 0) || year % 400 == 0
}

fn dim_exec(year: u32, month: u32) -> (r: u32)
    ensures
        r == dim(year as nat, month as nat),
{
    if month == 1 || month == 3 || month == 5 || month == 7 || month == 8 || month == 10 || month
        == 12 {
        31
    } else if month == 4 || month == 6 || month == 9 || month == 11 {
        30
    } else if month == 2 {
        if is_leap_year(year) {
            29
        } else {
            28
        }
    } else {
        0
    }
}

proof fn lemma_dec_value_mono(s: Seq<char>, k: int)
    requires
        0 <= k <= s.len(),
        all_digits(s),
    ensures
        dec_value(s.take(k)) <= dec_value(s),
    decreases s.len(),
{
    if k < s.len() {
        assert(s.drop_last().take(k) =~= s.take(k));
        lemma_dec_value_mono(s.drop_last(), k);
    } else {
        assert(s.take(k) =~= s);
    }
}

/// What `u32::from_str` yields for `s`.
fn parse_u32_exec(s: &Vec<char>) -> (r: Option<u32>)
    ensures
        match r {
            Some(v) => parse_u32(s@) == Some(v as nat),
            None => parse_u32(s@) is None,
        },
{
    let start: usize = if s.len() > 0 && s[0] == '+' {
        1
    } else {
        0
    };
    let ghost d = if s@.len() > 0 && s@[0] == '+' {
        s@.skip(1)
    } else {
        s@
    };
    proof {
        assert(d =~= s@.skip(start as int));
    }
    if start == s.len() {
        return None;
    }
    let mut v: u64 = 0;
    let mut k = start;
    while k < s.len()
        invariant
            start <= k <= s@.len(),
            d == s@.skip(start as int),
            d == (if s@.len() > 0 && s@[0] == '+' {
                s@.skip(1)
            } else {
                s@
            }),
            all_digits(d.take(k - start)),
            v == dec_value(d.take(k - start)),
            v <= u32::MAX,
        decreases s@.len() - k,
    {
        proof {
            assert(d.take(k + 1 - start).drop_last() =~= d.take(k - start));
            assert(d[k - start] == s@[k as int]);
        }
        if !('0' <= s[k] && s[k] <= '9') {
            proof {
                assert(!all_digits(d)) by {
                    assert(!is_digit(d[k - start]));
                }
            }
            return None;
        }
        let dg = digit(s[k]);
        v = v * 10 + dg as u64;
        proof {
            assert(all_digits(d.take(k + 1 - start))) by {
                assert forall|i: int| 0 <= i < k + 1 - start implies is_digit(#[trigger] d.take(k + 1 - start)[i]) by {
                    if i < k - start {
                        assert(d.take(k + 1 - start)[i] == d.take(k - start)[i]);
                    }
                }
            }
        }
        if v > 4294967295 {
            proof {
                if all_digits(d) {
                    lemma_dec_value_mono(d, k + 1 - start);
                }
            }
            return None;
        }
        k = k + 1;
    }
    proof {
        assert(d.take(k - start) =~= d);
    }
    Some(v as u32)
}

/// Days in `month` of the year written `year_str`; an unreadable year counts
/// as 2000. A month outside 1 to 12 has 0 days.
pub fn days_in_month(year_str: &str, month: u32) -> (r: u32)
    ensures
        r == dim(
            match parse_u32(year_str@) {
                Some(y) => y,
                None => 2000,
            },
            month as nat,
        ),
{
    let year = match parse_u32_exec(&chars_of(year_str)) {
        Some(y) => y,
        None => 2000,
    };
    dim_exec(year, month)
}

fn valid_chars(s: &Vec<char>) -> (r: bool)
    ensures
        r == valid_date(s@),
{
    if s.len() != 10 || !('0' <= s[0] && s[0] <= '9') || !('0' <= s[1] && s[1] <= '9') || !('0'
        <= s[2] && s[2] <= '9') || !('0' <= s[3] && s[3] <= '9') || s[4] != '-' || !('0' <= s[5]
        && s[5] <= '9') || !('0' <= s[6] && s[6] <= '9') || s[7] != '-' || !('0' <= s[8] && s[8]
        <= '9') || !('0' <= s[9] && s[9] <= '9') {
        return false;
    }
    proof {
        assert(all_digits(s@.subrange(0, 4)));
        assert(all_digits(s@.subrange(5, 7)));
        assert(all_digits(s@.subrange(8, 10)));
        assert(s@.take(4) =~= s@.subrange(0, 4));
    }
    let y = small_value(s, 0, 4);
    let m = small_value(s, 5, 7);
    let d = small_value(s, 8, 10);
    1 <= m && m <= 12 && 1 <= d && d <= dim_exec(y, m)
}

/// Whether `date_str` is a real date written `YYYY-MM-DD`.
pub fn validate_date(date_str: &str) -> (r: bool)
    ensures
        r == valid_date(date_str@),
{
    valid_chars(&chars_of(date_str))
}

/// Year, month and day of a valid date.
pub fn parse_date(date_str: &str) -> (r: Option<(u32, u32, u32)>)
    ensures
        r is Some <==> valid_date(date_str@),
        match r {
            Some(t) => t.0 as nat == year_of(date_str@) && t.1 as nat == month_of(date_str@) && t.2 as nat == day_of(date_str@),
            None => true,
        },
{
    let s = chars_of(date_str);
    if !valid_chars(&s) {
        return None;
    }
    proof {
        assert(all_digits(s@.subrange(0, 4)));
        assert(all_digits(s@.subrange(5, 7)));
        assert(all_digits(s@.subrange(8, 10)));
        assert(s@.take(4) =~= s@.subrange(0, 4));
    }
    Some((small_value(&s, 0, 4), small_value(&s, 5, 7), small_value(&s, 8, 10)))
}

} // verus!

verus! {

pub open spec fn dchar(v: nat) -> char {
    ((v % 10) + ('0' as u32)) as char
}

/// Decimal digits of `v`, most significant first.
pub open spec fn dec_digits(v: nat) -> Seq<char>
    decreases v,
{
    if v < 10 {
        seq![dchar(v)]
    } else {
        dec_digits(v / 10).push(dchar(v % 10))
    }
}

/// `v` in decimal, left-padded with zeros to `w` digits.
pub open spec fn padded(v: nat, w: nat) -> Seq<char> {
    let ds = dec_digits(v);
    if ds.len() < w {
        Seq::new((w - ds.len()) as nat, |i: int| '0') + ds
    } else {
        ds
    }
}

/// `YYYY-MM-DD` with zero padding, as `{:04}-{:02}-{:02}` writes it.
pub open spec fn fmt_date(y: nat, m: nat, d: nat) -> Seq<char> {
    padded(y, 4) + seq!['-'] + padded(m, 2) + seq!['-'] + padded(d, 2)
}

/// The day after a valid date.
pub open spec fn next_date(s: Seq<char>) -> Seq<char> {
    let y = year_of(s);
    let m = month_of(s);
    let d = day_of(s);
    if d < dim(y, m) {
        fmt_date(y, m, d + 1)
    } else if m < 12 {
        fmt_date(y, m + 1, 1)
    } else {
        fmt_date(y + 1, 1, 1)
    }
}

fn dchar_exec(v: u64) -> (r: char)
    ensures
        r == dchar(v as nat),
{
    ((v % 10) as u8 + 48u8) as char
}

/// Appends `v` in decimal, zero-padded to `width` digits.
pub(crate) fn push_padded(out: &mut Vec<char>, v: u64, width: usize)
    ensures
        final(out)@ == old(out)@ + padded(v as nat, width as nat),
{
    let mut acc: Vec<char> = Vec::new();
    let mut x = v;
    while x >= 10
        invariant
            dec_digits(v as nat) == dec_digits(x as nat) + acc@,
        decreases x,
    {
        let ghost before = acc@;
        acc.insert(0, dchar_exec(x % 10));
        proof {
            assert(dec_digits(x as nat) == dec_digits((x / 10) as nat).push(dchar((x % 10) as nat)));
            assert(dec_digits((x / 10) as nat) + acc@ =~= dec_digits(x as nat) + before);
        }
        x = x / 10;
    }
    let ghost before = acc@;
    acc.insert(0, dchar_exec(x));
    proof {
        assert(dec_digits(x as nat) == seq![dchar(x as nat)]);
        assert(acc@ =~= dec_digits(v as nat));
    }
    let ghost start = out@;
    if acc.len() < width {
        let mut z: usize = 0;
        while z < width - acc.len()
            invariant
                acc@.len() < width,
                z <= width - acc@.len(),
                out@ == start + Seq::new(z as nat, |i: int| '0'),
            decreases width - acc@.len() - z,
        {
            out.push('0');
            proof {
                assert(out@ =~= start + Seq::new((z + 1) as nat, |i: int| '0'));
            }
            z = z + 1;
        }
    }
    let ghost mid = out@;
    let mut k: usize = 0;
    while k < acc.len()
        invariant
            k <= acc@.len(),
            out@ == mid + acc@.take(k as int),
        decreases acc@.len() - k,
    {
        out.push(acc[k]);
        proof {
            assert(out@ =~= mid + acc@.take(k + 1));
        }
        k = k + 1;
    }
    proof {
        assert(acc@.take(k as int) =~= acc@);
        if acc@.len() < width {
            assert(out@ =~= start + (Seq::new((width - acc@.len()) as nat, |i: int| '0') + acc@));
        } else {
            assert(out@ =~= start + acc@);
        }
    }
}

fn fmt_date_exec(y: u64, m: u64, d: u64) -> (r: Vec<char>)
    ensures
        r@ == fmt_date(y as nat, m as nat, d as nat),
{
    let mut out: Vec<char> = Vec::new();
    push_padded(&mut out, y, 4);
    out.push('-');
    push_padded(&mut out, m, 2);
    out.push('-');
    push_padded(&mut out, d, 2);
    proof {
        assert(out@ =~= fmt_date(y as nat, m as nat, d as nat));
    }
    out
}

fn next_date_exec(s: &Vec<char>) -> (r: Vec<char>)
    requires
        valid_date(s@),
    ensures
        r@ == next_date(s@),
{
    proof {
        assert(all_digits(s@.subrange(0, 4)));
        assert(all_digits(s@.subrange(5, 7)));
        assert(all_digits(s@.subrange(8, 10)));
        assert(s@.take(4) =~= s@.subrange(0, 4));
    }
    let y = small_value(s, 0, 4);
    let m = small_value(s, 5, 7);
    let d = small_value(s, 8, 10);
    if d < dim_exec(y, m) {
        fmt_date_exec(y as u64, m as u64, d as u64 + 1)
    } else if m < 12 {
        fmt_date_exec(y as u64, m as u64 + 1, 1)
    } else {
        fmt_date_exec(y as u64 + 1, 1, 1)
    }
}

/// The day after `date_str`, if it is a valid date.
fn increment_date(date_str: &str) -> (r: Option<String>)
    ensures
        r is Some <==> valid_date(date_str@),
        match r {
            Some(n) => n@ == next_date(date_str@),
            None => true,
        },
{
    let s = chars_of(date_str);
    if !valid_chars(&s) {
        return None;
    }
    Some(string_of(&next_date_exec(&s)))
}

/// Longest run of dates that `date_range` produces.
pub const MAX_RANGE_DAYS: usize = 3651;

/// The dates from `cur` on, day by day, at most `budget` of them; the run
/// stops after `end` or after a date that has no successor.
pub open spec fn range_from(cur: Seq<char>, end: Seq<char>, budget: nat) -> Seq<Seq<char>>
    decreases budget,
{
    if budget == 0 {
        seq![]
    } else if cur == end || !valid_date(cur) || budget == 1 {
        seq![cur]
    } else {
        seq![cur] + range_from(next_date(cur), end, (budget - 1) as nat)
    }
}

fn chars_eq(a: &Vec<char>, b: &Vec<char>) -> (r: bool)
    ensures
        r == (a@ == b@),
{
    if a.len() != b.len() {
        return false;
    }
    let mut i: usize = 0;
    while i < a.len()
        invariant
            i <= a@.len(),
            a@.len() == b@.len(),
            forall|j: int| 0 <= j < i ==> a@[j] == b@[j],
        decreases a@.len() - i,
    {
        if a[i] != b[i] {
            return false;
        }
        i = i + 1;
    }
    assert(a@ =~= b@);
    true
}

/// The dates from `start` to `end` inclusive, day by day, at most
/// `MAX_RANGE_DAYS` of them; empty when either is not a valid date or `start`
/// comes after `end`.
pub fn date_range(start: &str, end: &str) -> (r: Vec<String>)
    ensures
        !valid_date(start@) || !valid_date(end@) || seq_lt(end@, start@) ==> r@.len() == 0,
        valid_date(start@) && valid_date(end@) && !seq_lt(end@, start@) ==> crate::text::string_views(r@) == range_from(start@, end@, MAX_RANGE_DAYS as nat),
{
    if !validate_date(start) || !validate_date(end) {
        return Vec::new();
    }
    if str_lt(end, start) {
        return Vec::new();
    }
    let end_chars = chars_of(end);
    let mut cur = chars_of(start);
    let mut dates: Vec<String> = Vec::new();
    loop
        invariant_except_break
            dates@.len() < MAX_RANGE_DAYS,
            crate::text::string_views(dates@) + range_from(cur@, end@, (MAX_RANGE_DAYS - dates@.len()) as nat)
                == range_from(start@, end@, MAX_RANGE_DAYS as nat),
        invariant
            end_chars@ == end@,
        ensures
            crate::text::string_views(dates@) == range_from(start@, end@, MAX_RANGE_DAYS as nat),
        decreases MAX_RANGE_DAYS - dates@.len(),
    {
        let ghost before = crate::text::string_views(dates@);
        let ghost budget = (MAX_RANGE_DAYS - dates@.len()) as nat;
        dates.push(string_of(&cur));
        proof {
            assert(crate::text::string_views(dates@) =~= before.push(cur@));
        }
        if chars_eq(&cur, &end_chars) || !valid_chars(&cur) || dates.len() >= MAX_RANGE_DAYS {
            proof {
                assert(range_from(cur@, end@, budget) == seq![cur@]);
                assert(before + seq![cur@] =~= before.push(cur@));
            }
            break;
        }
        let next = next_date_exec(&cur);
        proof {
            assert(range_from(cur@, end@, budget) == seq![cur@] + range_from(next@, end@, (budget - 1) as nat));
            assert(before + (seq![cur@] + range_from(next@, end@, (budget - 1) as nat)) =~= before.push(cur@) + range_from(next@, end@, (budget - 1) as nat));
        }
        cur = next;
    }
    dates
}

/// Relies on `SystemTime::now` and `SystemTime::duration_since(UNIX_EPOCH)`:
/// whole seconds since the Unix epoch, zero if the clock is set before it.
#[verifier::external_body]
fn seconds_since_epoch() -> (r: u64) {
    std::time::SystemTime::now().duration_since(std::time::UNIX_EPOCH).unwrap_or_default().as_secs()
}

pub open spec fn year_len(y: nat) -> nat {
    if leap(y) {
        366
    } else {
        365
    }
}

/// Year and day within it of the day `days` after January 1 of year `y`.
pub open spec fn year_and_rest(days: nat, y: nat) -> (nat, nat)
    decreases days,
{
    if days < year_len(y) {
        (y, days)
    } else {
        year_and_rest((days - year_len(y)) as nat, y + 1)
    }
}

/// Month and day within it of day `rest` of year `y`, counting from month `m`.
pub open spec fn month_and_rest(rest: nat, y: nat, m: nat) -> (nat, nat)
    decreases 12 - m,
{
    if m >= 12 || rest < dim(y, m) {
        (m, rest)
    } else {
        month_and_rest((rest - dim(y, m)) as nat, y, m + 1)
    }
}

/// The date `days` days after 1970-01-01.
pub open spec fn civil_date(days: nat) -> Seq<char> {
    let (y, rest) = year_and_rest(days, 1970);
    let (m, r2) = month_and_rest(rest, y, 1);
    fmt_date(y, m, r2 + 1)
}

fn is_leap_u64(y: u64) -> (r: bool)
    ensures
        r == leap(y as nat),
{
    (y % 4 == 0 && y % 100 != 0) || y % 400 == 0
}

/// The date `days` days after 1970-01-01, written `YYYY-MM-DD`.
pub fn date_from_days(days: u64) -> (r: String)
    ensures
        r@ == civil_date(days as nat),
{
    let mut year: u64 = 1970;
    let mut rest: u64 = days;
    loop
        invariant
            1970 <= year,
            (year - 1970) * 365 + rest <= days,
            year_and_rest(days as nat, 1970) == year_and_rest(rest as nat, year as nat),
        ensures
            year_and_rest(days as nat, 1970) == (year as nat, rest as nat),
            rest < 366,
        decreases rest,
    {
        let len: u64 = if is_leap_u64(year) {
            366
        } else {
            365
        };
        if rest < len {
            break;
        }
        rest = rest - len;
        year = year + 1;
    }
    let ghost yr = year_and_rest(days as nat, 1970);
    assert(yr == (year as nat, rest as nat));
    let mut month: u64 = 1;
    loop
        invariant
            1 <= month <= 12,
            yr == year_and_rest(days as nat, 1970),
            month_and_rest(yr.1, year as nat, 1) == month_and_rest(
                rest as nat,
                year as nat,
                month as nat,
            ),
            rest < 366,
        ensures
            month_and_rest(yr.1, year as nat, 1) == (month as nat, rest as nat),
            rest < 366,
        decreases 12 - month,
    {
        let dm: u64 = if month == 2 {
            if is_leap_u64(year) {
                29
            } else {
                28
            }
        } else if month == 4 || month == 6 || month == 9 || month == 11 {
            30
        } else {
            31
        };
        proof {
            assert(dm == dim(year as nat, month as nat));
        }
        if month >= 12 || rest < dm {
            break;
        }
        rest = rest - dm;
        month = month + 1;
    }
    let out = fmt_date_exec(year, month, rest + 1);
    proof {
        assert(month_and_rest(yr.1, year as nat, 1) == (month as nat, rest as nat));
    }
    string_of(&out)
}

/// Today's date from the system clock, written `YYYY-MM-DD`.
pub fn today() -> (r: String)
    ensures
        exists|days: nat| r@ == civil_date(days),
{
    let secs = seconds_since_epoch();
    date_from_days(secs / 86400)
}

} // verus!
