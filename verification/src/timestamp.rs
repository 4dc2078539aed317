//! Calendar date and time of a Unix timestamp, and the timestamped name of
//! an output file (`yyyymmddhhmmss.txt`).
use vstd::prelude::*;

verus! {

/// Gregorian leap year rule.
pub open spec fn is_leap_year(y: int) -> bool {
    y % 4 == 0 && (y % 100 != 0 || y % 400 == 0)
}

/// Number of days of month `m` (1 = January) in year `y`.
pub open spec fn days_in_month(y: int, m: int) -> int {
    if m == 2 {
        if is_leap_year(y) { 29 } else { 28 }
    } else if m == 4 || m == 6 || m == 9 || m == 11 {
        30
    } else {
        31
    }
}

/// Days from January 1 to the first of month `m` in a common year.
pub open spec fn month_offset(m: int) -> int {
    if m <= 1 { 0 }
    else if m == 2 { 31 }
    else if m == 3 { 59 }
    else if m == 4 { 90 }
    else if m == 5 { 120 }
    else if m == 6 { 151 }
    else if m == 7 { 181 }
    else if m == 8 { 212 }
    else if m == 9 { 243 }
    else if m == 10 { 273 }
    else if m == 11 { 304 }
    else { 334 }
}

/// Days from January 1 of year `y` to the first of month `m`.
pub open spec fn days_before_month(y: int, m: int) -> int {
    month_offset(m) + if m > 2 && is_leap_year(y) { 1int } else { 0int }
}

/// Days from January 1 of year 0 to January 1 of year `y` (proleptic
/// Gregorian calendar): 365 per year plus one per leap year in between.
pub open spec fn days_before_year(y: int) -> int {
    365 * y + (y + 3) / 4 - (y + 99) / 100 + (y + 399) / 400
}

/// Day number of the date `y`-`m`-`d`, counted from 1970-01-01 (day 0).
pub open spec fn days_from_civil(y: int, m: int, d: int) -> int {
    days_before_year(y) - days_before_year(1970) + days_before_month(y, m) + d - 1
}

/// `m` is a month and `d` a day of that month in year `y`.
pub open spec fn is_valid_date(y: int, m: int, d: int) -> bool {
    1 <= m <= 12 && 1 <= d <= days_in_month(y, m)
}

/// Within a 400-year era that starts on March 1, day `doe` falls in year
/// `yoe` of the era, on day `doy` of that March-based year; only the last day
/// of a leap year (February 29) is day 365.
#[verifier::rlimit(40)]
proof fn lemma_year_of_era(doe: int)
    requires
        0 <= doe <= 146096,
    ensures ({
        let yoe = (doe - doe / 1460 + doe / 36524 - doe / 146096) / 365;
        let doy = doe - (365 * yoe + yoe / 4 - yoe / 100);
        &&& 0 <= yoe <= 399
        &&& 0 <= doy <= 365
        &&& doy == 365 ==> is_leap_year(yoe + 1)
    }),
{
}

/// Day `doy` of a March-based year lies in month `mp` (0 = March) on day `d`,
/// within that month's length.
#[verifier::rlimit(40)]
proof fn lemma_month_of_year(doy: int, mp: int, d: int)
    requires
        0 <= doy <= 365,
        mp == (5 * doy + 2) / 153,
        d == doy - (153 * mp + 2) / 5 + 1,
    ensures
        0 <= mp <= 11,
        1 <= d,
        mp <= 9 ==> d <= days_in_month(0, mp + 3),
        mp == 10 ==> d <= 31,
        mp == 11 ==> d <= 29 && (d == 29 ==> doy == 365),
{
}

/// Whole eras of 400 years hold 146097 days, and the leap rule repeats
/// with them.
#[verifier::rlimit(40)]
proof fn lemma_era_years(era: int, yoe: int)
    requires
        0 <= yoe <= 399,
    ensures
        days_before_year(400 * era + yoe) == 146097 * era + days_before_year(yoe),
        is_leap_year(400 * era + yoe) == is_leap_year(yoe),
        days_before_year(yoe) + (if is_leap_year(yoe) { 1int } else { 0int }) == 365 * yoe + yoe / 4 - yoe / 100 + 1,
{
    let y = 400 * era + yoe;
    lemma_div_shift(yoe + 3, 100 * era, 4);
    lemma_div_shift(yoe + 99, 4 * era, 100);
    lemma_div_shift(yoe + 399, era, 400);
    lemma_div_shift(yoe, 100 * era, 4);
    lemma_div_shift(yoe, 4 * era, 100);
    lemma_div_shift(yoe, era, 400);
}

/// Adding `k` times `q` adds `k` to the quotient by `q` and keeps the remainder.
proof fn lemma_div_shift(x: int, k: int, q: int)
    requires
        q > 0,
    ensures
        (x + q * k) / q == x / q + k,
        (x + q * k) % q == x % q,
{
    vstd::arithmetic::div_mod::lemma_fundamental_div_mod(x, q);
    assert(x + q * k == q * (x / q + k) + x % q) by (nonlinear_arith)
        requires x == q * (x / q) + x % q;
    vstd::arithmetic::div_mod::lemma_fundamental_div_mod_converse(x + q * k, q, x / q + k, x % q);
}

/// Rounding `y / q` up grows by one exactly when `y` is a multiple of `q`.
proof fn lemma_ceil_step(y: int, q: int)
    requires
        q > 0,
    ensures
        (y + q) / q - (y + q - 1) / q == if y % q == 0 { 1int } else { 0int },
{
    vstd::arithmetic::div_mod::lemma_fundamental_div_mod(y, q);
    vstd::arithmetic::div_mod::lemma_fundamental_div_mod(y + q, q);
    vstd::arithmetic::div_mod::lemma_fundamental_div_mod(y + q - 1, q);
    let a = y / q;
    let r = y % q;
    assert((y + q) / q == a + 1) by {
        vstd::arithmetic::div_mod::lemma_div_plus_one(y, q);
    }
    if r == 0 {
        assert((y + q - 1) / q == a) by {
            assert(y + q - 1 == a * q + (q - 1)) by (nonlinear_arith)
                requires y == q * a + r, r == 0;
            vstd::arithmetic::div_mod::lemma_fundamental_div_mod_converse(y + q - 1, q, a, q - 1);
        }
    } else {
        assert((y + q - 1) / q == a + 1) by {
            assert(y + q - 1 == (a + 1) * q + (r - 1)) by (nonlinear_arith)
                requires y == q * a + r;
            vstd::arithmetic::div_mod::lemma_fundamental_div_mod_converse(y + q - 1, q, a + 1, r - 1);
        }
    }
}

/// A year has 365 days, 366 in a leap year.
proof fn lemma_next_year(y: int)
    ensures
        days_before_year(y + 1) == days_before_year(y) + 365 + if is_leap_year(y) { 1int } else { 0int },
{
    lemma_ceil_step(y, 4);
    lemma_ceil_step(y, 100);
    lemma_ceil_step(y, 400);
}

proof fn lemma_month_offset(mp: int)
    requires
        0 <= mp <= 11,
    ensures
        mp <= 9 ==> month_offset(mp + 3) == 59 + (153 * mp + 2) / 5,
        mp >= 10 ==> month_offset(mp - 9) == (153 * mp + 2) / 5 - 306,
{
    if mp == 0 {} else if mp == 1 {} else if mp == 2 {} else if mp == 3 {} else if mp == 4 {}
    else if mp == 5 {} else if mp == 6 {} else if mp == 7 {} else if mp == 8 {} else if mp == 9 {}
    else if mp == 10 {} else {}
}

proof fn lemma_leap_periodic(era: int, k: int)
    ensures
        is_leap_year(400 * era + k) == is_leap_year(k),
{
    assert((400 * era + k) % 4 == k % 4);
    assert((400 * era + k) % 100 == k % 100);
    assert((400 * era + k) % 400 == k % 400);
}

/// The date computed era by era from a day number is valid and has that
/// day number.
#[verifier::rlimit(40)]
proof fn lemma_civil_from_days(days: int, era: int, doe: int, yoe: int, doy: int, mp: int, d: int, m: int, y: int)
    requires
        days + 719468 == 146097 * era + doe,
        0 <= doe <= 146096,
        yoe == (doe - doe / 1460 + doe / 36524 - doe / 146096) / 365,
        doy == doe - (365 * yoe + yoe / 4 - yoe / 100),
        mp == (5 * doy + 2) / 153,
        d == doy - (153 * mp + 2) / 5 + 1,
        m == if mp < 10 { mp + 3 } else { mp - 9 },
        y == yoe + era * 400 + if m <= 2 { 1int } else { 0int },
    ensures
        is_valid_date(y, m, d),
        days_from_civil(y, m, d) == days,
{
    lemma_year_of_era(doe);
    lemma_month_of_year(doy, mp, d);
    lemma_era_years(era, yoe);
    lemma_month_offset(mp);
    let base = 400 * era + yoe;
    let leap_base: int = if is_leap_year(base) { 1 } else { 0 };
    assert(days_before_year(1970) == 719528);
    assert(days_before_year(base) + leap_base == days + 719468 - doy + 1);
    if m <= 2 {
        lemma_next_year(base);
        lemma_leap_periodic(era, yoe + 1);
        assert(y == base + 1);
        assert(days_before_month(y, m) == (153 * mp + 2) / 5 - 306);
        assert(days_from_civil(y, m, d) == days);
        if mp == 11 && d == 29 {
            assert(is_leap_year(y));
        }
    } else {
        assert(y == base);
        assert(days_before_month(y, m) == 59 + (153 * mp + 2) / 5 + leap_base);
        assert(days_from_civil(y, m, d) == days);
    }
}



/// A calendar date and time of day (UTC).
pub struct CivilTime {
    pub year: i64,
    pub month: i64,
    pub day: i64,
    pub hour: i64,
    pub minute: i64,
    pub second: i64,
}

impl CivilTime {
    /// This is a valid date and time that lies `seconds` seconds after
    /// 1970-01-01 00:00:00.
    pub open spec fn is_at(self, seconds: int) -> bool {
        &&& is_valid_date(self.year as int, self.month as int, self.day as int)
        &&& 0 <= self.hour < 24
        &&& 0 <= self.minute < 60
        &&& 0 <= self.second < 60
        &&& days_from_civil(self.year as int, self.month as int, self.day as int) * 86400
            + self.hour * 3600 + self.minute * 60 + self.second == seconds
    }
}

/// The date and time that lies `seconds` seconds after the epoch, where
/// there is one.
pub open spec fn civil_at(seconds: int) -> CivilTime {
    choose|t: CivilTime| t.is_at(seconds)
}

proof fn lemma_civil_at(t: CivilTime, seconds: int)
    requires
        t.is_at(seconds),
    ensures
        t == civil_at(seconds),
{
    let c = civil_at(seconds);
    assert(c.is_at(seconds));
    lemma_civil_time_unique(t, c, seconds);
}

/// The date and time (UTC) that lies `seconds` seconds after 1970-01-01 00:00:00.
pub fn civil_from_unix(seconds: i64) -> (t: CivilTime)
    ensures
        t.is_at(seconds as int),
        t == civil_at(seconds as int),
{
    let days = seconds.checked_div_euclid(86_400).unwrap();
    let day_seconds = seconds.checked_rem_euclid(86_400).unwrap();
    let hour = day_seconds / 3_600;
    let minute = (day_seconds % 3_600) / 60;
    let second = day_seconds % 60;

    let z = days + 719_468;
    let era = z.checked_div_euclid(146_097).unwrap();
    let doe = z - era * 146_097;
    let yoe = (doe - doe / 1_460 + doe / 36_524 - doe / 146_096) / 365;
    let day_of_year = doe - (365 * yoe + yoe / 4 - yoe / 100);
    let month_part = (5 * day_of_year + 2) / 153;
    let day = day_of_year - (153 * month_part + 2) / 5 + 1;
    let month = month_part + if month_part < 10 { 3 } else { -9 };
    let year = yoe + era * 400 + if month <= 2 { 1 } else { 0 };
    proof {
        lemma_year_of_era(doe as int);
        lemma_civil_from_days(days as int, era as int, doe as int, yoe as int, day_of_year as int,
            month_part as int, day as int, month as int, year as int);
    }
    let t = CivilTime { year, month, day, hour, minute, second };
    proof {
        lemma_civil_at(t, seconds as int);
    }
    t
}



proof fn lemma_years_increase(y1: int, y2: int)
    requires
        y1 < y2,
    ensures
        days_before_year(y1 + 1) <= days_before_year(y2),
    decreases y2 - y1,
{
    if y1 + 1 < y2 {
        lemma_years_increase(y1 + 1, y2);
        lemma_next_year(y1 + 1);
    }
}

proof fn lemma_month_step(y: int, m: int)
    requires
        1 <= m <= 11,
    ensures
        days_before_month(y, m + 1) == days_before_month(y, m) + days_in_month(y, m),
{
}

proof fn lemma_months_increase(y: int, m1: int, m2: int)
    requires
        1 <= m1 < m2 <= 12,
    ensures
        days_before_month(y, m1) + days_in_month(y, m1) <= days_before_month(y, m2),
    decreases m2 - m1,
{
    lemma_month_step(y, m1);
    if m1 + 1 < m2 {
        lemma_months_increase(y, m1 + 1, m2);
        lemma_month_step(y, m1 + 1);
    }
}

proof fn lemma_date_within_year(y: int, m: int, d: int)
    requires
        is_valid_date(y, m, d),
    ensures
        days_before_year(y) <= days_before_year(y) + days_before_month(y, m) + d - 1 < days_before_year(y + 1),
{
    lemma_next_year(y);
    if m < 12 {
        lemma_months_increase(y, m, 12);
    }
}

/// A day count names one date: distinct valid dates have distinct day numbers.
pub proof fn lemma_days_from_civil_injective(y1: int, m1: int, d1: int, y2: int, m2: int, d2: int)
    requires
        is_valid_date(y1, m1, d1),
        is_valid_date(y2, m2, d2),
        days_from_civil(y1, m1, d1) == days_from_civil(y2, m2, d2),
    ensures
        y1 == y2 && m1 == m2 && d1 == d2,
{
    lemma_date_within_year(y1, m1, d1);
    lemma_date_within_year(y2, m2, d2);
    if y1 < y2 {
        lemma_years_increase(y1, y2);
    } else if y2 < y1 {
        lemma_years_increase(y2, y1);
    }
    assert(y1 == y2);
    if m1 < m2 {
        lemma_months_increase(y1, m1, m2);
    } else if m2 < m1 {
        lemma_months_increase(y1, m2, m1);
    }
}

/// A number of seconds since the epoch has exactly one civil date and time.
pub proof fn lemma_civil_time_unique(t1: CivilTime, t2: CivilTime, seconds: int)
    requires
        t1.is_at(seconds),
        t2.is_at(seconds),
    ensures
        t1 == t2,
{
    let d1 = days_from_civil(t1.year as int, t1.month as int, t1.day as int);
    let d2 = days_from_civil(t2.year as int, t2.month as int, t2.day as int);
    let s1 = t1.hour * 3600 + t1.minute * 60 + t1.second;
    let s2 = t2.hour * 3600 + t2.minute * 60 + t2.second;
    assert(d1 == d2) by (nonlinear_arith)
        requires
            d1 * 86400 + s1 == d2 * 86400 + s2,
            0 <= s1 < 86400,
            0 <= s2 < 86400,
    ;
    lemma_days_from_civil_injective(t1.year as int, t1.month as int, t1.day as int,
        t2.year as int, t2.month as int, t2.day as int);
}



/// The character of decimal digit `d`.
pub open spec fn digit_char(d: int) -> char {
    (d + 48) as char
}

/// `n` written in decimal, without leading zeros.
pub open spec fn decimal(n: nat) -> Seq<char>
    decreases n,
{
    if n < 10 {
        seq![digit_char(n as int)]
    } else {
        decimal(n / 10).push(digit_char((n % 10) as int))
    }
}

/// `k` zero characters (none when `k` is not positive).
pub open spec fn zeros(k: int) -> Seq<char> {
    Seq::new(if k > 0 { k as nat } else { 0 }, |i: int| '0')
}

/// `v` in decimal, padded with zeros after the sign to at least `width`
/// characters, as the `{:0width$}` format writes it.
pub open spec fn zero_padded(v: int, width: int) -> Seq<char> {
    if v < 0 {
        let digits = decimal((-v) as nat);
        seq!['-'] + zeros(width - 1 - digits.len()) + digits
    } else {
        let digits = decimal(v as nat);
        zeros(width - digits.len()) + digits
    }
}

fn digit_str(d: u64) -> (s: &'static str)
    requires
        d < 10,
    ensures
        s@ == seq![digit_char(d as int)],
{
    match d {
        0 => { proof { reveal_strlit("0"); } "0" }
        1 => { proof { reveal_strlit("1"); } "1" }
        2 => { proof { reveal_strlit("2"); } "2" }
        3 => { proof { reveal_strlit("3"); } "3" }
        4 => { proof { reveal_strlit("4"); } "4" }
        5 => { proof { reveal_strlit("5"); } "5" }
        6 => { proof { reveal_strlit("6"); } "6" }
        7 => { proof { reveal_strlit("7"); } "7" }
        8 => { proof { reveal_strlit("8"); } "8" }
        _ => { proof { reveal_strlit("9"); } "9" }
    }
}

fn push_decimal(out: &mut String, n: u64)
    ensures
        final(out)@ == old(out)@ + decimal(n as nat),
    decreases n,
{
    if n >= 10 {
        push_decimal(out, n / 10);
    }
    out.append(digit_str(n % 10));
}

spec fn power_of_ten(j: nat) -> nat
    decreases j,
{
    if j == 0 { 1 } else { 10 * power_of_ten((j - 1) as nat) }
}

proof fn lemma_decimal_len_bound(n: nat, j: nat)
    requires
        1 <= j,
        n < power_of_ten(j),
    ensures
        decimal(n).len() <= j,
    decreases j,
{
    if n >= 10 {
        assert(power_of_ten(0) == 1);
        lemma_decimal_len_bound(n / 10, (j - 1) as nat);
    }
}

proof fn lemma_u64_decimal_len(n: u64)
    ensures
        decimal(n as nat).len() <= 20,
{
    reveal_with_fuel(power_of_ten, 21);
    assert(power_of_ten(20) == 100_000_000_000_000_000_000);
    lemma_decimal_len_bound(n as nat, 20);
}

fn decimal_len(n: u64) -> (k: usize)
    ensures
        k == decimal(n as nat).len(),
        k <= 20,
    decreases n,
{
    if n < 10 {
        1
    } else {
        let k = decimal_len(n / 10);
        proof { lemma_u64_decimal_len(n); }
        k + 1
    }
}

fn push_zeros(out: &mut String, k: usize)
    ensures
        final(out)@ == old(out)@ + zeros(k as int),
{
    let ghost start = out@;
    let mut i: usize = 0;
    while i < k
        invariant
            i <= k,
            out@ == start + zeros(i as int),
        decreases k - i,
    {
        proof { reveal_strlit("0"); }
        out.append("0");
        i += 1;
        assert(out@ =~= start + zeros(i as int));
    }
}

fn push_padded(out: &mut String, v: i64, width: usize)
    ensures
        final(out)@ == old(out)@ + zero_padded(v as int, width as int),
{
    let ghost start = out@;
    if v < 0 {
        let magnitude: u64 = ((-(v + 1)) as u64) + 1;
        let len = decimal_len(magnitude);
        proof { reveal_strlit("-"); }
        out.append("-");
        if width > 0 && len < width - 1 {
            push_zeros(out, width - 1 - len);
        } else {
            push_zeros(out, 0);
        }
        push_decimal(out, magnitude);
        assert(out@ =~= start + zero_padded(v as int, width as int));
    } else {
        let magnitude = v as u64;
        let len = decimal_len(magnitude);
        if len < width {
            push_zeros(out, width - len);
        } else {
            push_zeros(out, 0);
        }
        push_decimal(out, magnitude);
        assert(out@ =~= start + zero_padded(v as int, width as int));
    }
}


/// The output file name `yyyymmddhhmmss.txt` for the date and time `t`.
pub open spec fn stamp_name(t: CivilTime) -> Seq<char> {
    zero_padded(t.year as int, 4) + zero_padded(t.month as int, 2) + zero_padded(t.day as int, 2)
        + zero_padded(t.hour as int, 2) + zero_padded(t.minute as int, 2) + zero_padded(t.second as int, 2)
        + seq!['.', 't', 'x', 't']
}

/// The file name `yyyymmddhhmmss.txt` (UTC) for the moment `unix_seconds`
/// seconds after the epoch, the seconds taken as an `i64` as the clock
/// reading is.
pub fn timestamp_filename(unix_seconds: u64) -> (name: String)
    ensures
        name@ == stamp_name(civil_at(unix_seconds as i64 as int)),
{
    let t = civil_from_unix(unix_seconds as i64);
    let mut name = String::new();
    push_padded(&mut name, t.year, 4);
    push_padded(&mut name, t.month, 2);
    push_padded(&mut name, t.day, 2);
    push_padded(&mut name, t.hour, 2);
    push_padded(&mut name, t.minute, 2);
    push_padded(&mut name, t.second, 2);
    proof { reveal_strlit(".txt"); }
    name.append(".txt");
    assert(name@ =~= stamp_name(t));
    name
}


/// `v` in exactly `w` decimal digits (its last `w` digits).
pub open spec fn fixed_digits(v: nat, w: nat) -> Seq<char>
    decreases w,
{
    if w == 0 {
        Seq::empty()
    } else {
        fixed_digits(v / 10, (w - 1) as nat).push(digit_char((v % 10) as int))
    }
}

/// Strict lexicographic order of character sequences, by code point.
pub open spec fn lex_lt(a: Seq<char>, b: Seq<char>) -> bool
    decreases a.len(),
{
    if a.len() == 0 {
        b.len() > 0
    } else if b.len() == 0 {
        false
    } else if (a[0] as u32) < (b[0] as u32) {
        true
    } else if a[0] == b[0] {
        lex_lt(a.drop_first(), b.drop_first())
    } else {
        false
    }
}

proof fn lemma_lex_concat(a1: Seq<char>, b1: Seq<char>, a2: Seq<char>, b2: Seq<char>)
    requires
        a1.len() == a2.len(),
    ensures
        lex_lt(a1 + b1, a2 + b2) == (lex_lt(a1, a2) || (a1 == a2 && lex_lt(b1, b2))),
    decreases a1.len(),
{
    if a1.len() == 0 {
        assert(a1 + b1 =~= b1);
        assert(a2 + b2 =~= b2);
        assert(a1 =~= a2);
    } else {
        assert((a1 + b1)[0] == a1[0]);
        assert((a2 + b2)[0] == a2[0]);
        assert((a1 + b1).drop_first() =~= a1.drop_first() + b1);
        assert((a2 + b2).drop_first() =~= a2.drop_first() + b2);
        lemma_lex_concat(a1.drop_first(), b1, a2.drop_first(), b2);
        if a1[0] == a2[0] && a1.drop_first() == a2.drop_first() {
            assert forall|i: int| 0 <= i < a1.len() implies a1[i] == a2[i] by {
                if i > 0 {
                    assert(a1[i] == a1.drop_first()[i - 1]);
                    assert(a2[i] == a2.drop_first()[i - 1]);
                }
            }
            assert(a1 =~= a2);
        }
        if a1 == a2 {
            assert(a1.drop_first() == a2.drop_first());
        }
    }
}

proof fn lemma_lex_irreflexive(a: Seq<char>)
    ensures
        !lex_lt(a, a),
    decreases a.len(),
{
    if a.len() > 0 {
        lemma_lex_irreflexive(a.drop_first());
    }
}

proof fn lemma_digit_char_value(d: int)
    requires
        0 <= d <= 9,
    ensures
        (digit_char(d) as u32) == d + 48,
{
}

proof fn lemma_fixed_digits_order(a: nat, b: nat, w: nat)
    ensures
        fixed_digits(a, w).len() == w,
        fixed_digits(b, w).len() == w,
        a % power_of_ten(w) < b % power_of_ten(w) ==> lex_lt(fixed_digits(a, w), fixed_digits(b, w)),
        a % power_of_ten(w) == b % power_of_ten(w) ==> fixed_digits(a, w) == fixed_digits(b, w),
    decreases w,
{
    if w > 0 {
        let w1 = (w - 1) as nat;
        lemma_fixed_digits_order(a / 10, b / 10, w1);
        let p = power_of_ten(w1);
        assert(power_of_ten(w) == 10 * p);
        lemma_power_of_ten_positive(w1);
        lemma_digit_char_value((a % 10) as int);
        lemma_digit_char_value((b % 10) as int);
        lemma_mod_split(a, p);
        lemma_mod_split(b, p);
        lemma_lex_concat(fixed_digits(a / 10, w1), seq![digit_char((a % 10) as int)],
            fixed_digits(b / 10, w1), seq![digit_char((b % 10) as int)]);
        assert(fixed_digits(a / 10, w1) + seq![digit_char((a % 10) as int)] == fixed_digits(a, w));
        assert(fixed_digits(b / 10, w1) + seq![digit_char((b % 10) as int)] == fixed_digits(b, w));
        if digit_char((a % 10) as int) == digit_char((b % 10) as int) {
            assert(a % 10 == b % 10);
        }
        assert(seq![digit_char((a % 10) as int)].drop_first() =~= Seq::<char>::empty());
        assert(seq![digit_char((b % 10) as int)].drop_first() =~= Seq::<char>::empty());
    } else {
        assert(power_of_ten(0) == 1);
    }
}

proof fn lemma_power_of_ten_positive(w: nat)
    ensures
        power_of_ten(w) > 0,
    decreases w,
{
    if w > 0 {
        lemma_power_of_ten_positive((w - 1) as nat);
    }
}

/// `a mod 10p` is `10 (a/10 mod p) + a mod 10`.
proof fn lemma_mod_split(a: nat, p: nat)
    requires
        p > 0,
    ensures
        a % (10 * p) == 10 * ((a / 10) % p) + a % 10,
{
    vstd::arithmetic::div_mod::lemma_fundamental_div_mod(a as int, 10);
    vstd::arithmetic::div_mod::lemma_fundamental_div_mod((a / 10) as int, p as int);
    let q = (a / 10) / p;
    let r = (a / 10) % p;
    assert(a == q * (10 * p) + (10 * r + a % 10)) by (nonlinear_arith)
        requires
            a == 10 * (a / 10) + a % 10,
            a / 10 == p * q + r;
    assert(0 <= 10 * r + a % 10 < 10 * p) by (nonlinear_arith)
        requires
            0 <= r < p,
            0 <= a % 10 < 10;
    vstd::arithmetic::div_mod::lemma_fundamental_div_mod_converse(a as int, (10 * p) as int, q as int, (10 * r + a % 10) as int);
}


proof fn lemma_fixed_digits_zero(k: nat)
    ensures
        fixed_digits(0, k) == zeros(k as int),
    decreases k,
{
    if k > 0 {
        lemma_fixed_digits_zero((k - 1) as nat);
        assert(fixed_digits(0, k) =~= zeros(k as int));
    } else {
        assert(fixed_digits(0, 0) =~= zeros(0));
    }
}

/// A number below `10^w` zero-padded to `w` places is its `w` digits.
proof fn lemma_zero_padded_fixed(v: nat, w: nat)
    requires
        1 <= w,
        v < power_of_ten(w),
    ensures
        zero_padded(v as int, w as int) == fixed_digits(v, w),
    decreases v,
{
    let w1 = (w - 1) as nat;
    assert(power_of_ten(w) == 10 * power_of_ten(w1));
    if v < 10 {
        lemma_fixed_digits_zero(w1);
        assert(decimal(v) =~= seq![digit_char(v as int)]);
        assert(zero_padded(v as int, w as int) =~= zeros(w1 as int) + seq![digit_char(v as int)]);
        assert(fixed_digits(v, w) == fixed_digits(0, w1).push(digit_char(v as int)));
        assert(zeros(w1 as int) + seq![digit_char(v as int)] =~= zeros(w1 as int).push(digit_char(v as int)));
    } else {
        if w1 == 0 {
            assert(power_of_ten(0) == 1);
        }
        assert(w1 >= 1);
        lemma_zero_padded_fixed(v / 10, w1);
        let dv = decimal(v / 10);
        let c = digit_char((v % 10) as int);
        assert(decimal(v) == dv.push(c));
        assert(zero_padded(v as int, w as int) =~= (zeros(w1 - dv.len()) + dv).push(c));
    }
}

/// `(y, m, d)` comes strictly before `(y2, m2, d2)`.
pub open spec fn date_lt(y1: int, m1: int, d1: int, y2: int, m2: int, d2: int) -> bool {
    y1 < y2 || (y1 == y2 && (m1 < m2 || (m1 == m2 && d1 < d2)))
}

proof fn lemma_days_from_civil_increasing(y1: int, m1: int, d1: int, y2: int, m2: int, d2: int)
    requires
        is_valid_date(y1, m1, d1),
        is_valid_date(y2, m2, d2),
        date_lt(y1, m1, d1, y2, m2, d2),
    ensures
        days_from_civil(y1, m1, d1) < days_from_civil(y2, m2, d2),
{
    lemma_date_within_year(y1, m1, d1);
    lemma_date_within_year(y2, m2, d2);
    if y1 < y2 {
        lemma_years_increase(y1, y2);
    } else if m1 < m2 {
        lemma_months_increase(y1, m1, m2);
    }
}

/// `t1` comes strictly before `t2` in calendar order.
pub open spec fn civil_lt(t1: CivilTime, t2: CivilTime) -> bool {
    let (y1, mo1, d1, h1, mi1, s1) = (t1.year as int, t1.month as int, t1.day as int, t1.hour as int, t1.minute as int, t1.second as int);
    let (y2, mo2, d2, h2, mi2, s2) = (t2.year as int, t2.month as int, t2.day as int, t2.hour as int, t2.minute as int, t2.second as int);
    date_lt(y1, mo1, d1, y2, mo2, d2) || (y1 == y2 && mo1 == mo2 && d1 == d2 && (h1 < h2
        || (h1 == h2 && (mi1 < mi2 || (mi1 == mi2 && s1 < s2)))))
}

proof fn lemma_civil_order(t1: CivilTime, t2: CivilTime, s1: int, s2: int)
    requires
        t1.is_at(s1),
        t2.is_at(s2),
        s1 < s2,
    ensures
        civil_lt(t1, t2),
{
    let dd1 = days_from_civil(t1.year as int, t1.month as int, t1.day as int);
    let dd2 = days_from_civil(t2.year as int, t2.month as int, t2.day as int);
    let tod1 = t1.hour * 3600 + t1.minute * 60 + t1.second;
    let tod2 = t2.hour * 3600 + t2.minute * 60 + t2.second;
    assert(dd1 <= dd2) by (nonlinear_arith)
        requires
            dd1 * 86400 + tod1 < dd2 * 86400 + tod2,
            0 <= tod1 < 86400,
            0 <= tod2 < 86400;
    if dd1 == dd2 {
        lemma_days_from_civil_injective(t1.year as int, t1.month as int, t1.day as int,
            t2.year as int, t2.month as int, t2.day as int);
    } else {
        if !date_lt(t1.year as int, t1.month as int, t1.day as int, t2.year as int, t2.month as int, t2.day as int) {
            if date_lt(t2.year as int, t2.month as int, t2.day as int, t1.year as int, t1.month as int, t1.day as int) {
                lemma_days_from_civil_increasing(t2.year as int, t2.month as int, t2.day as int,
                    t1.year as int, t1.month as int, t1.day as int);
            }
        }
    }
}

/// A date and time exists at every second from the epoch up to the end of
/// year 9999, with a year of at most four digits.
proof fn lemma_civil_exists(s: int)
    requires
        0 <= s < 253_402_300_800,
    ensures
        civil_at(s).is_at(s),
        0 <= civil_at(s).year <= 9999,
{
    let days = s / 86400;
    let tod = s % 86400;
    let z = days + 719468;
    let era = z / 146097;
    let doe = z % 146097;
    let yoe = (doe - doe / 1460 + doe / 36524 - doe / 146096) / 365;
    let doy = doe - (365 * yoe + yoe / 4 - yoe / 100);
    let mp = (5 * doy + 2) / 153;
    let d = doy - (153 * mp + 2) / 5 + 1;
    let m = if mp < 10 { mp + 3 } else { mp - 9 };
    let y = yoe + era * 400 + if m <= 2 { 1int } else { 0int };
    lemma_year_of_era(doe);
    lemma_month_of_year(doy, mp, d);
    lemma_civil_from_days(days, era, doe, yoe, doy, mp, d, m, y);
    assert(0 <= era <= 25);
    let t = CivilTime {
        year: y as i64,
        month: m as i64,
        day: d as i64,
        hour: (tod / 3600) as i64,
        minute: ((tod % 3600) / 60) as i64,
        second: (tod % 60) as i64,
    };
    assert(t.is_at(s));
    lemma_civil_at(t, s);
    lemma_date_within_year(y, m, d);
    if y > 9999 {
        lemma_years_increase(9999, y);
        assert(days_before_year(10000) - days_before_year(1970) == 2932897);
    }
    if y < 0 {
        lemma_years_increase(y, 1970);
    }
}

/// The name's pieces as fixed-width digit blocks.
proof fn lemma_stamp_blocks(t: CivilTime)
    requires
        0 <= t.year <= 9999,
        1 <= t.month <= 12,
        1 <= t.day <= 31,
        0 <= t.hour < 24,
        0 <= t.minute < 60,
        0 <= t.second < 60,
    ensures
        stamp_name(t) == fixed_digits(t.year as nat, 4) + (fixed_digits(t.month as nat, 2) + (fixed_digits(t.day as nat, 2)
            + (fixed_digits(t.hour as nat, 2) + (fixed_digits(t.minute as nat, 2) + (fixed_digits(t.second as nat, 2)
            + seq!['.', 't', 'x', 't']))))),
{
    lemma_power_values();
    lemma_zero_padded_fixed(t.year as nat, 4);
    lemma_zero_padded_fixed(t.month as nat, 2);
    lemma_zero_padded_fixed(t.day as nat, 2);
    lemma_zero_padded_fixed(t.hour as nat, 2);
    lemma_zero_padded_fixed(t.minute as nat, 2);
    lemma_zero_padded_fixed(t.second as nat, 2);
    let a = fixed_digits(t.year as nat, 4);
    let b = fixed_digits(t.month as nat, 2);
    let c = fixed_digits(t.day as nat, 2);
    let d = fixed_digits(t.hour as nat, 2);
    let e = fixed_digits(t.minute as nat, 2);
    let f = fixed_digits(t.second as nat, 2);
    let txt = seq!['.', 't', 'x', 't'];
    assert(stamp_name(t) == a + b + c + d + e + f + txt);
    lemma_regroup(a, b, c, d, e, f, txt);
}

/// Seven concatenated pieces, regrouped to the right.
proof fn lemma_regroup(
    a: Seq<char>,
    b: Seq<char>,
    c: Seq<char>,
    d: Seq<char>,
    e: Seq<char>,
    f: Seq<char>,
    g: Seq<char>,
)
    ensures
        a + b + c + d + e + f + g == a + (b + (c + (d + (e + (f + g))))),
{
    assert(a + b + c + d + e + f + g =~= a + (b + (c + (d + (e + (f + g))))));
}

proof fn lemma_power_values()
    ensures
        power_of_ten(2) == 100,
        power_of_ten(4) == 10000,
{
    assert(power_of_ten(0) == 1);
    assert(power_of_ten(1) == 10);
    assert(power_of_ten(2) == 100);
    assert(power_of_ten(3) == 1000);
    assert(power_of_ten(4) == 10000);
}

/// One block of the name decides, or hands over to the rest.
proof fn lemma_block_step(a: nat, b: nat, w: nat, r1: Seq<char>, r2: Seq<char>)
    requires
        a < power_of_ten(w),
        b < power_of_ten(w),
        a < b || (a == b && lex_lt(r1, r2)),
    ensures
        lex_lt(fixed_digits(a, w) + r1, fixed_digits(b, w) + r2),
{
    lemma_power_of_ten_positive(w);
    vstd::arithmetic::div_mod::lemma_small_mod(a, power_of_ten(w));
    vstd::arithmetic::div_mod::lemma_small_mod(b, power_of_ten(w));
    lemma_fixed_digits_order(a, b, w);
    lemma_lex_concat(fixed_digits(a, w), r1, fixed_digits(b, w), r2);
}

/// Output file names sort as their times do: for seconds from the epoch up
/// to the end of year 9999, a later second gives a name that comes strictly
/// later in character (and, the names being ASCII, byte) order, so distinct
/// seconds give distinct names.
pub proof fn lemma_stamp_names_ordered(s1: int, s2: int)
    requires
        0 <= s1 < s2 < 253_402_300_800,
    ensures
        lex_lt(stamp_name(civil_at(s1)), stamp_name(civil_at(s2))),
        stamp_name(civil_at(s1)) != stamp_name(civil_at(s2)),
{
    lemma_civil_exists(s1);
    lemma_civil_exists(s2);
    let t1 = civil_at(s1);
    let t2 = civil_at(s2);
    lemma_civil_order(t1, t2, s1, s2);
    lemma_stamp_blocks(t1);
    lemma_stamp_blocks(t2);
    lemma_power_values();
    let txt = seq!['.', 't', 'x', 't'];
    let s1r = fixed_digits(t1.second as nat, 2) + txt;
    let s2r = fixed_digits(t2.second as nat, 2) + txt;
    if t1.second < t2.second || t1.second == t2.second {
        if t1.second < t2.second {
            lemma_block_step(t1.second as nat, t2.second as nat, 2, txt, txt);
        }
    }
    let mi1r = fixed_digits(t1.minute as nat, 2) + s1r;
    let mi2r = fixed_digits(t2.minute as nat, 2) + s2r;
    if t1.minute == t2.minute && t1.second < t2.second {
        lemma_block_step(t1.minute as nat, t2.minute as nat, 2, s1r, s2r);
    } else if t1.minute < t2.minute {
        lemma_block_step(t1.minute as nat, t2.minute as nat, 2, s1r, s2r);
    }
    let h1r = fixed_digits(t1.hour as nat, 2) + mi1r;
    let h2r = fixed_digits(t2.hour as nat, 2) + mi2r;
    if t1.hour < t2.hour || (t1.hour == t2.hour && lex_lt(mi1r, mi2r)) {
        lemma_block_step(t1.hour as nat, t2.hour as nat, 2, mi1r, mi2r);
    }
    let d1r = fixed_digits(t1.day as nat, 2) + h1r;
    let d2r = fixed_digits(t2.day as nat, 2) + h2r;
    if t1.day < t2.day || (t1.day == t2.day && lex_lt(h1r, h2r)) {
        lemma_block_step(t1.day as nat, t2.day as nat, 2, h1r, h2r);
    }
    let m1r = fixed_digits(t1.month as nat, 2) + d1r;
    let m2r = fixed_digits(t2.month as nat, 2) + d2r;
    if t1.month < t2.month || (t1.month == t2.month && lex_lt(d1r, d2r)) {
        lemma_block_step(t1.month as nat, t2.month as nat, 2, d1r, d2r);
    }
    lemma_block_step(t1.year as nat, t2.year as nat, 4, m1r, m2r);
    lemma_lex_irreflexive(stamp_name(t1));
}

} // verus!
