//! Capture times as image metadata writes them: `YYYY:MM:DD HH:MM:SS`.
use vstd::prelude::*;

verus! {

pub open spec fn is_digit(b: u8) -> bool {
    48 <= b <= 57
}

/// The number written by the `len` digits of `s` from `start`.
pub open spec fn number(s: Seq<u8>, start: int, len: nat) -> int
    decreases len,
{
    if len == 0 {
        0
    } else {
        number(s, start, (len - 1) as nat) * 10 + (s[start + len - 1] - 48)
    }
}

pub open spec fn is_leap(y: int) -> bool {
    (y % 4 == 0 && y % 100 != 0) || y % 400 == 0
}

pub open spec fn month_days(y: int, m: int) -> int {
    if m == 2 {
        if is_leap(y) {
            29
        } else {
            28
        }
    } else if m == 4 || m == 6 || m == 9 || m == 11 {
        30
    } else {
        31
    }
}

/// Days from 1970-01-01 to the given date of the proleptic Gregorian
/// calendar, for years from 1 on.
pub open spec fn days_from_civil(y: int, m: int, d: int) -> int {
    let y2 = if m <= 2 {
        y - 1
    } else {
        y
    };
    let era = y2 / 400;
    let yoe = y2 - era * 400;
    let mp = if m > 2 {
        m - 3
    } else {
        m + 9
    };
    let doy = (153 * mp + 2) / 5 + d - 1;
    let doe = yoe * 365 + yoe / 4 - yoe / 100 + doy;
    era * 146097 + doe - 719468
}

/// `s` has the shape `DDDD:DD:DD DD:DD:DD`, where each `D` is a digit.
pub open spec fn well_shaped(s: Seq<u8>) -> bool {
    &&& s.len() == 19
    &&& forall|i: int|
        0 <= i < 19 && i != 4 && i != 7 && i != 10 && i != 13 && i != 16 ==> is_digit(#[trigger] s[i])
    &&& s[4] == 58 && s[7] == 58 && s[10] == 32 && s[13] == 58 && s[16] == 58
}

/// The fields of a well-shaped text name a real moment: a year from 1, a
/// month and a day of that month, an hour, a minute and a second.
pub open spec fn valid_fields(s: Seq<u8>) -> bool {
    let (y, mo, d) = (number(s, 0, 4), number(s, 5, 2), number(s, 8, 2));
    &&& y >= 1
    &&& 1 <= mo <= 12
    &&& 1 <= d <= month_days(y, mo)
    &&& number(s, 11, 2) < 24
    &&& number(s, 14, 2) < 60
    &&& number(s, 17, 2) < 60
}

/// Seconds since 1970-01-01 00:00:00 of the time written in `s`.
pub open spec fn seconds_of(s: Seq<u8>) -> int {
    days_from_civil(number(s, 0, 4), number(s, 5, 2), number(s, 8, 2)) * 86400 + number(s, 11, 2)
        * 3600 + number(s, 14, 2) * 60 + number(s, 17, 2)
}

proof fn lemma_number_bound(s: Seq<u8>, start: int, len: nat)
    requires
        forall|i: int| start <= i < start + len ==> is_digit(#[trigger] s[i]),
        0 <= start,
        start + len <= s.len(),
    ensures
        0 <= number(s, start, len) < pow10(len),
    decreases len,
{
    if len > 0 {
        lemma_number_bound(s, start, (len - 1) as nat);
        assert(is_digit(s[start + len - 1]));
    }
}

pub open spec fn pow10(n: nat) -> int
    decreases n,
{
    if n == 0 {
        1
    } else {
        10 * pow10((n - 1) as nat)
    }
}

/// Reads `len` digits of `s` from `start`.
fn read_number(s: &[u8], start: usize, len: usize) -> (r: i64)
    requires
        forall|i: int| start <= i < start + len ==> is_digit(#[trigger] s@[i]),
        start + len <= s@.len(),
        len <= 4,
    ensures
        r == number(s@, start as int, len as nat),
{
    let n = s.len();
    let mut r: i64 = 0;
    let mut k: usize = 0;
    while k < len
        invariant
            n == s@.len(),
            k <= len,
            len <= 4,
            start + len <= s@.len(),
            forall|i: int| start <= i < start + len ==> is_digit(#[trigger] s@[i]),
            r == number(s@, start as int, k as nat),
            0 <= r < pow10(k as nat),
        decreases len - k,
    {
        assert(is_digit(s@[start + k]));
        assert(pow10(k as nat) <= 1000) by {
            assert(pow10(0) == 1);
            assert(pow10(1) == 10);
            assert(pow10(2) == 100);
            assert(pow10(3) == 1000);
        }
        let at: usize = start + k;
        let b: u8 = s[at];
        let dgt: i64 = (b - 48) as i64;
        assert(r < 1000);
        r = r * 10 + dgt;
        k = k + 1;
    }
    r
}

fn shaped(s: &[u8]) -> (r: bool)
    ensures
        r == well_shaped(s@),
{
    if s.len() != 19 {
        return false;
    }
    let mut i: usize = 0;
    while i < 19
        invariant
            s@.len() == 19,
            i <= 19,
            forall|j: int|
                0 <= j < i && j != 4 && j != 7 && j != 10 && j != 13 && j != 16 ==> is_digit(#[trigger] s@[j]),
        decreases 19 - i,
    {
        if i != 4 && i != 7 && i != 10 && i != 13 && i != 16 && !(48 <= s[i] && s[i] <= 57) {
            return false;
        }
        i = i + 1;
    }
    s[4] == 58 && s[7] == 58 && s[10] == 32 && s[13] == 58 && s[16] == 58
}

fn days_in_month(y: u64, m: u64) -> (r: u64)
    ensures
        r == month_days(y as int, m as int),
{
    if m == 2 {
        if (y % 4 == 0 && y % 100 != 0) || y % 400 == 0 {
            29
        } else {
            28
        }
    } else if m == 4 || m == 6 || m == 9 || m == 11 {
        30
    } else {
        31
    }
}

/// Reads a capture time written `YYYY:MM:DD HH:MM:SS`, as seconds since
/// 1970-01-01 00:00:00. `None` when the text has another shape or names no
/// real moment; image files write zeros there when the time is unknown.
pub fn exif_time(s: &[u8]) -> (r: Option<i64>)
    ensures
        r is Some <==> well_shaped(s@) && valid_fields(s@),
        r matches Some(t) ==> t == seconds_of(s@),
{
    if !shaped(s) {
        return None;
    }
    proof {
        lemma_number_bound(s@, 0, 4);
        lemma_number_bound(s@, 5, 2);
        lemma_number_bound(s@, 8, 2);
        lemma_number_bound(s@, 11, 2);
        lemma_number_bound(s@, 14, 2);
        lemma_number_bound(s@, 17, 2);
        assert(pow10(4) == 10000) by {
            assert(pow10(0) == 1);
            assert(pow10(1) == 10);
            assert(pow10(2) == 100);
            assert(pow10(3) == 1000);
        }
    }
    let y = read_number(s, 0, 4) as u64;
    let mo = read_number(s, 5, 2) as u64;
    let d = read_number(s, 8, 2) as u64;
    let h = read_number(s, 11, 2);
    let mi = read_number(s, 14, 2);
    let sec = read_number(s, 17, 2);
    if y < 1 || mo < 1 || mo > 12 || d < 1 || d > days_in_month(y, mo) || h >= 24 || mi >= 60 || sec >= 60 {
        return None;
    }
    let y2: u64 = if mo <= 2 { y - 1 } else { y };
    let era: u64 = y2 / 400;
    assert(era <= 25 && era * 400 <= y2 && y2 < era * 400 + 400) by (nonlinear_arith)
        requires
            y2 <= 9999,
            era == y2 / 400,
    ;
    let yoe: u64 = y2 - era * 400;
    let mp: u64 = if mo > 2 { mo - 3 } else { mo + 9 };
    assert((153 * mp + 2) / 5 <= 400) by (nonlinear_arith)
        requires
            mp <= 11,
    ;
    let doy: u64 = (153 * mp + 2) / 5 + d - 1;
    let doe: u64 = yoe * 365 + yoe / 4 - yoe / 100 + doy;
    let days: i64 = (era * 146097 + doe) as i64 - 719468;
    Some(days * 86400 + h * 3600 + mi * 60 + sec)
}

} // verus!
