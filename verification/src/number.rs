//! Exact decimal numbers read from spreadsheet and CSV text.
use vstd::prelude::*;

verus! {

/// Numbers are held in hundred-millionths (units of 10^-8).
pub const DECIMAL_SCALE: i128 = 100_000_000;

/// Largest magnitude, in hundred-millionths, that the library holds: 2^125.
/// Every sum it forms is bounded by a sum of such magnitudes, and stays within
/// 128 bits.
pub const NUMBER_BOUND: i128 = 42535295865117307932921825928971026432;

/// What a number cell holds: no number, a number, or a number too large to hold.
#[derive(PartialEq, Eq, Structural, Debug)]
pub enum Reading {
    NotANumber,
    Value(i128),
    TooLarge,
}

pub open spec fn is_digit(c: char) -> bool {
    '0' <= c && c <= '9'
}

pub open spec fn digit_value(c: char) -> int {
    (c as int) - ('0' as int)
}

pub open spec fn all_digits(s: Seq<char>) -> bool {
    forall|i: int| 0 <= i < s.len() ==> is_digit(#[trigger] s[i])
}

/// The value of a string of decimal digits.
pub open spec fn digits_value(s: Seq<char>) -> int
    decreases s.len(),
{
    if s.len() == 0 {
        0
    } else {
        digits_value(s.drop_last()) * 10 + digit_value(s.last())
    }
}

/// Number of digits at the start of `s`.
pub open spec fn digit_run(s: Seq<char>) -> nat
    decreases s.len(),
{
    if s.len() > 0 && is_digit(s[0]) {
        1 + digit_run(s.drop_first())
    } else {
        0
    }
}

/// Digit `j` of the digit string `ds`, or 0 past its end.
pub open spec fn digit_at(ds: Seq<char>, j: int) -> int {
    if 0 <= j < ds.len() {
        digit_value(ds[j])
    } else {
        0
    }
}

/// The value of the first `p` digits of `ds`, taken as padded with zeros on the
/// right: the digits read with the decimal point after digit `p`, the rest
/// dropped (0 when `p` is not positive).
pub open spec fn leading_value(ds: Seq<char>, p: int) -> int
    decreases p,
{
    if p <= 0 {
        0
    } else {
        leading_value(ds, p - 1) * 10 + digit_at(ds, p - 1)
    }
}

/// An exponent letter.
pub open spec fn is_exp_mark(c: char) -> bool {
    c == 'e' || c == 'E'
}

/// The value of an exponent's digits: an optional `+` or `-` sign and at least
/// one digit; `None` for any other text.
pub open spec fn exponent_value(x: Seq<char>) -> Option<int> {
    let neg = x.len() > 0 && x[0] == '-';
    let y = if x.len() > 0 && (x[0] == '-' || x[0] == '+') {
        x.drop_first()
    } else {
        x
    };
    if y.len() > 0 && all_digits(y) {
        Some(
            if neg {
                -digits_value(y)
            } else {
                digits_value(y)
            },
        )
    } else {
        None
    }
}

/// The magnitude, in hundred-millionths, of text of the form `digits`, `digits.`,
/// `digits.digits` or `.digits` with at least one digit, followed by an optional
/// exponent (`e` or `E`, an optional sign, and digits): the number's digits with
/// the decimal point moved by the exponent, digits past the eighth decimal
/// place dropped. `None` for any other text.
pub open spec fn unsigned_decimal(u: Seq<char>) -> Option<int> {
    let d = digit_run(u) as int;
    let rest = u.skip(d);
    let has_point = rest.len() > 0 && rest[0] == '.';
    let fl = if has_point {
        digit_run(rest.skip(1)) as int
    } else {
        0
    };
    let frac = if has_point {
        rest.skip(1).take(fl)
    } else {
        Seq::<char>::empty()
    };
    let after = if has_point {
        rest.skip(1 + fl)
    } else {
        rest
    };
    let ds = u.take(d) + frac;
    if d == 0 && fl == 0 {
        None
    } else if after.len() == 0 {
        Some(leading_value(ds, d + 8))
    } else if !is_exp_mark(after[0]) {
        None
    } else {
        match exponent_value(after.skip(1)) {
            Some(e) => Some(leading_value(ds, d + e + 8)),
            None => None,
        }
    }
}

/// The value, in hundred-millionths, of a decimal number with an optional `+`
/// or `-` sign; `None` when the text is no such number.
pub open spec fn decimal_value(s: Seq<char>) -> Option<int> {
    let neg = s.len() > 0 && s[0] == '-';
    let u = if s.len() > 0 && (s[0] == '-' || s[0] == '+') {
        s.drop_first()
    } else {
        s
    };
    match unsigned_decimal(u) {
        Some(m) => Some(
            if neg {
                -m
            } else {
                m
            },
        ),
        None => None,
    }
}

/// Reads a number cell: its decimal value in hundred-millionths, zero when the
/// text is no number; `None` when the value's magnitude exceeds `NUMBER_BOUND`.
pub fn number_cell(s: &str) -> (r: Option<i128>)
    ensures
        match r {
            Some(v) => v == number_or_zero(s@) && -NUMBER_BOUND <= v <= NUMBER_BOUND,
            None => !(-NUMBER_BOUND <= number_or_zero(s@) <= NUMBER_BOUND),
        },
{
    match parse_decimal(s) {
        Reading::NotANumber => Some(0),
        Reading::Value(v) => Some(v),
        Reading::TooLarge => None,
    }
}

/// A number cell read the way the spreadsheet logic reads it: unreadable text counts as zero.
pub open spec fn number_or_zero(s: Seq<char>) -> int {
    match decimal_value(s) {
        Some(v) => v,
        None => 0,
    }
}

proof fn lemma_digits_value_nonneg(s: Seq<char>)
    requires
        all_digits(s),
    ensures
        digits_value(s) >= 0,
    decreases s.len(),
{
    if s.len() > 0 {
        assert(is_digit(s[s.len() - 1]));
        lemma_digits_value_nonneg(s.drop_last());
    }
}

fn is_digit_char(c: char) -> (r: bool)
    ensures
        r == is_digit(c),
{
    c >= '0' && c <= '9'
}

fn digit_of(c: char) -> (r: i64)
    requires
        is_digit(c),
    ensures
        r == digit_value(c),
        0 <= r <= 9,
{
    ((c as u32) - ('0' as u32)) as i64
}

/// Cap on the value of an exponent's digits while scanning; any exponent this
/// large moves the decimal point past every digit a text can hold.
const EXP_CAP: i128 = 100_000_000_000_000_000_000;

/// Scans the run of digits of `s` that starts at `start`: returns where it ends
/// and its value, capped at `EXP_CAP`.
fn scan_digits(s: &str, n: usize, start: usize) -> (res: (usize, i128))
    requires
        n == s@.len(),
        start <= n,
    ensures
        start <= res.0 <= n,
        res.0 - start == digit_run(s@.skip(start as int)),
        all_digits(s@.skip(start as int).take(res.0 - start)),
        res.0 < n ==> !is_digit(s@[res.0 as int]),
        0 <= res.1 <= EXP_CAP,
        res.1 == (if digits_value(s@.skip(start as int).take(res.0 - start)) < EXP_CAP {
            digits_value(s@.skip(start as int).take(res.0 - start))
        } else {
            EXP_CAP as int
        }),
{
    let ghost u = s@.skip(start as int);
    let mut i: usize = start;
    let mut ip: i128 = 0;
    assert(u.take(0) =~= Seq::<char>::empty());
    assert(u.skip(0) =~= u);
    while i < n && is_digit_char(s.get_char(i))
        invariant
            n == s@.len(),
            start <= i <= n,
            u == s@.skip(start as int),
            all_digits(u.take(i - start)),
            0 <= ip <= EXP_CAP,
            digit_run(u) == (i - start) + digit_run(u.skip(i - start)),
            ip == (if digits_value(u.take(i - start)) < EXP_CAP {
                digits_value(u.take(i - start))
            } else {
                EXP_CAP as int
            }),
        decreases n - i,
    {
        let c = s.get_char(i);
        let d = digit_of(c);
        let ghost k = i - start;
        assert(u[k] == c);
        assert(u.take(k + 1).drop_last() =~= u.take(k));
        assert(u.take(k + 1).last() == c);
        assert(u.skip(k).drop_first() =~= u.skip(k + 1));
        assert(u.skip(k)[0] == c);
        proof {
            lemma_digits_value_nonneg(u.take(k));
        }
        if ip >= EXP_CAP {
            ip = EXP_CAP;
        } else {
            let t = ip * 10 + d as i128;
            ip = if t < EXP_CAP { t } else { EXP_CAP };
        }
        i = i + 1;
        assert(all_digits(u.take(i - start)));
    }
    proof {
        let d = i - start;
        if i < n {
            assert(u.skip(d)[0] == s@[i as int]);
        } else {
            assert(u.skip(d).len() == 0);
        }
    }
    (i, ip)
}

/// Ten to the power `t` (1 for `t` not positive).
pub open spec fn pow10(t: int) -> int
    decreases t,
{
    if t <= 0 {
        1
    } else {
        10 * pow10(t - 1)
    }
}

proof fn lemma_pow10_large(t: int)
    requires
        t >= 39,
    ensures
        pow10(t) > NUMBER_BOUND,
    decreases t,
{
    if t > 39 {
        lemma_pow10_large(t - 1);
    } else {
        reveal_with_fuel(pow10, 40);
    }
}

/// Past the end of the digits, a zero value stays zero.
proof fn lemma_leading_zero(ds: Seq<char>, j: int, p: int)
    requires
        j >= ds.len(),
        leading_value(ds, j) == 0,
        p >= j,
    ensures
        leading_value(ds, p) == 0,
    decreases p - j,
{
    if p > j {
        lemma_leading_zero(ds, j, p - 1);
    }
}

proof fn lemma_leading_nonneg(ds: Seq<char>, p: int)
    requires
        all_digits(ds),
    ensures
        leading_value(ds, p) >= 0,
    decreases p,
{
    if p > 0 {
        lemma_leading_nonneg(ds, p - 1);
        if p - 1 < ds.len() {
            assert(is_digit(ds[p - 1]));
        }
    }
}

/// Taking more digits of a digit string never lowers its value.
proof fn lemma_leading_mono(ds: Seq<char>, j: int, p: int)
    requires
        all_digits(ds),
        j <= p,
    ensures
        0 <= leading_value(ds, j) <= leading_value(ds, p),
    decreases p - j,
{
    lemma_leading_nonneg(ds, j);
    if p > j {
        lemma_leading_mono(ds, j, p - 1);
        if 0 <= p - 1 < ds.len() {
            assert(is_digit(ds[p - 1]));
        }
    }
}

/// Digit `j` of the digits `s[start..start + d]` followed by `s[fs..fs + fl]`.
fn digit_in(s: &str, n: usize, start: usize, d: usize, fs: usize, fl: usize, j: i128) -> (r: i128)
    requires
        n == s@.len(),
        start + d <= n,
        fs + fl <= n,
        all_digits(s@.skip(start as int).take(d as int)),
        all_digits(s@.skip(fs as int).take(fl as int)),
        0 <= j,
    ensures
        r == digit_at(s@.skip(start as int).take(d as int) + s@.skip(fs as int).take(fl as int), j as int),
        0 <= r <= 9,
{
    let ghost a = s@.skip(start as int).take(d as int);
    let ghost b = s@.skip(fs as int).take(fl as int);
    let ghost ds = a + b;
    if j < d as i128 {
        let k = j as usize;
        assert(a[k as int] == s@[start + k]);
        assert(ds[k as int] == a[k as int]);
        digit_of(s.get_char(start + k)) as i128
    } else if j - (d as i128) < fl as i128 {
        let k = (j - d as i128) as usize;
        assert(b[k as int] == s@[fs + k]);
        assert(ds[j as int] == b[k as int]);
        digit_of(s.get_char(fs + k)) as i128
    } else {
        0
    }
}

/// The exponent after the exponent letter at `p`, its value capped at
/// `EXP_CAP` in magnitude; `None` when it is no exponent.
fn scan_exponent(s: &str, n: usize, p: usize) -> (r: Option<i128>)
    requires
        n == s@.len(),
        p < n,
    ensures
        match exponent_value(s@.skip(p + 1)) {
            Some(et) => r matches Some(e) && ((-EXP_CAP < et < EXP_CAP && e == et) || (et
                >= EXP_CAP && e == EXP_CAP) || (et <= -EXP_CAP && e == -EXP_CAP)),
            None => r is None,
        },
{
    let ghost x = s@.skip(p + 1);
    let mut q = p + 1;
    let mut neg = false;
    if q < n {
        let c1 = s.get_char(q);
        assert(x[0] == c1);
        if c1 == '-' {
            neg = true;
            q = q + 1;
        } else if c1 == '+' {
            q = q + 1;
        }
    }
    let ghost y = s@.skip(q as int);
    assert(y =~= (if x.len() > 0 && (x[0] == '-' || x[0] == '+') {
        x.drop_first()
    } else {
        x
    }));
    let (k, ev) = scan_digits(s, n, q);
    if k != n || k == q {
        proof {
            if k != n {
                assert(y[k - q] == s@[k as int]);
            }
        }
        return None;
    }
    assert(y.take(k - q) =~= y);
    proof {
        lemma_digits_value_nonneg(y);
    }
    Some(if neg { -ev } else { ev })
}

/// The value of the first `pt` digits of `s[start..start + d]` followed by
/// `s[fs..fs + fl]`, or `None` when it exceeds `NUMBER_BOUND`. `pt` is the wanted
/// count `pt_true`, or stands for it where both are past every digit or both
/// are negative.
fn leading_digits(
    s: &str,
    n: usize,
    start: usize,
    d: usize,
    fs: usize,
    fl: usize,
    pt: i128,
    Ghost(pt_true): Ghost<int>,
) -> (r: Option<i128>)
    requires
        n == s@.len(),
        start + d <= n,
        fs + fl <= n,
        all_digits(s@.skip(start as int).take(d as int)),
        all_digits(s@.skip(fs as int).take(fl as int)),
        pt == pt_true || (pt <= pt_true && pt - d - fl >= 39) || (pt_true <= pt && pt < 0),
    ensures
        match r {
            Some(m) => leading_value(
                s@.skip(start as int).take(d as int) + s@.skip(fs as int).take(fl as int),
                pt_true,
            ) == m && 0 <= m <= NUMBER_BOUND,
            None => leading_value(
                s@.skip(start as int).take(d as int) + s@.skip(fs as int).take(fl as int),
                pt_true,
            ) > NUMBER_BOUND,
        },
{
    let ghost ds = s@.skip(start as int).take(d as int) + s@.skip(fs as int).take(fl as int);
    let total: i128 = d as i128 + fl as i128;
    assert(ds.len() == total);
    assert(all_digits(ds)) by {
        assert forall|q: int| 0 <= q < ds.len() implies is_digit(#[trigger] ds[q]) by {
            if q < d {
                assert(ds[q] == s@.skip(start as int).take(d as int)[q]);
            } else {
                assert(ds[q] == s@.skip(fs as int).take(fl as int)[q - d]);
            }
        }
    }
    let mut acc: i128 = 0;
    let mut j: i128 = 0;
    while j < pt
        invariant
            n == s@.len(),
            start + d <= n,
            fs + fl <= n,
            all_digits(s@.skip(start as int).take(d as int)),
            all_digits(s@.skip(fs as int).take(fl as int)),
            ds == s@.skip(start as int).take(d as int) + s@.skip(fs as int).take(fl as int),
            all_digits(ds),
            total == ds.len(),
            pt == pt_true || (pt <= pt_true && pt - total >= 39) || (pt_true <= pt && pt < 0),
            0 <= j,
            pt >= 0 ==> j <= pt,
            pt < 0 ==> j == 0,
            acc == leading_value(ds, j as int),
            0 <= acc <= NUMBER_BOUND,
            j >= total && acc > 0 ==> acc >= pow10(j - total),
        decreases pt - j,
    {
        if j >= total && acc == 0 {
            proof {
                lemma_leading_zero(ds, j as int, pt_true);
            }
            return Some(0);
        }
        let dg = digit_in(s, n, start, d, fs, fl, j);
        assert(leading_value(ds, j + 1) == acc * 10 + dg);
        if acc > (NUMBER_BOUND - dg) / 10 {
            assert(acc * 10 + dg > NUMBER_BOUND);
            proof {
                lemma_leading_mono(ds, j + 1, pt_true);
            }
            return None;
        }
        let next: i128 = acc * 10 + dg;
        proof {
            if j + 1 >= total && next > 0 && j >= total {
                assert(dg == 0);
                assert(pow10(j + 1 - total) == 10 * pow10(j - total));
            }
        }
        acc = next;
        j = j + 1;
    }
    proof {
        if pt != pt_true {
            if pt < 0 {
                assert(j == 0);
            } else {
                if acc > 0 {
                    lemma_pow10_large(j - total);
                }
                lemma_leading_zero(ds, j as int, pt_true);
            }
        }
    }
    Some(acc)
}

/// Reads an unsigned decimal starting at `start`: no number, its value, or too
/// large when its magnitude exceeds `NUMBER_BOUND`.
#[verifier::rlimit(30)]
fn parse_unsigned(s: &str, n: usize, start: usize) -> (r: Reading)
    requires
        n == s@.len(),
        start <= n,
    ensures
        match r {
            Reading::Value(m) => unsigned_decimal(s@.skip(start as int)) == Some(m as int) && 0
                <= m <= NUMBER_BOUND,
            Reading::TooLarge => unsigned_decimal(s@.skip(start as int)) matches Some(m) && m
                > NUMBER_BOUND,
            Reading::NotANumber => unsigned_decimal(s@.skip(start as int)) is None,
        },
{
    let ghost u = s@.skip(start as int);
    let (i, _) = scan_digits(s, n, start);
    let d: usize = i - start;
    assert(u.skip(d as int) =~= s@.skip(i as int));
    let mut fs: usize = i;
    let mut fl: usize = 0;
    let mut p: usize = i;
    let has_point = i < n && s.get_char(i) == '.';
    if has_point {
        assert(s@.skip(i as int)[0] == s@[i as int]);
        assert(s@.skip(i as int).skip(1) =~= s@.skip(i + 1));
        let (j, _) = scan_digits(s, n, i + 1);
        fs = i + 1;
        fl = j - (i + 1);
        p = j;
        assert(s@.skip(i as int).skip(1 + fl) =~= s@.skip(p as int));
    } else {
        if i < n {
            assert(s@.skip(i as int)[0] == s@[i as int]);
        }
        assert(s@.skip(fs as int).take(0) =~= Seq::<char>::empty());
    }
    let ghost ds = s@.skip(start as int).take(d as int) + s@.skip(fs as int).take(fl as int);
    let ghost after = s@.skip(p as int);
    assert(ds =~= u.take(d as int) + (if has_point {
        u.skip(d as int).skip(1).take(fl as int)
    } else {
        Seq::<char>::empty()
    }));
    if d == 0 && fl == 0 {
        return Reading::NotANumber;
    }
    let mut e: i128 = 0;
    let ghost mut et: int = 0;
    if p < n {
        let c = s.get_char(p);
        assert(after[0] == c);
        if c != 'e' && c != 'E' {
            return Reading::NotANumber;
        }
        assert(after.skip(1) =~= s@.skip(p + 1));
        match scan_exponent(s, n, p) {
            None => {
                return Reading::NotANumber;
            },
            Some(x) => {
                e = x;
                proof {
                    et = exponent_value(after.skip(1))->Some_0;
                }
            },
        }
    } else {
        assert(after.len() == 0);
    }
    let ghost pt_true: int = d + et + 8;
    assert(unsigned_decimal(u) == Some(leading_value(ds, pt_true)));
    let pt: i128 = d as i128 + e + 8;
    match leading_digits(s, n, start, d, fs, fl, pt, Ghost(pt_true)) {
        Some(m) => Reading::Value(m),
        None => Reading::TooLarge,
    }
}

/// Parses a decimal number into hundred-millionths.
pub fn parse_decimal(s: &str) -> (r: Reading)
    ensures
        match r {
            Reading::Value(v) => decimal_value(s@) == Some(v as int) && -NUMBER_BOUND <= v
                <= NUMBER_BOUND,
            Reading::TooLarge => decimal_value(s@) matches Some(v) && !(-NUMBER_BOUND <= v
                <= NUMBER_BOUND),
            Reading::NotANumber => decimal_value(s@) is None,
        },
{
    let n = s.unicode_len();
    let mut start: usize = 0;
    let mut neg = false;
    if n > 0 {
        let c0 = s.get_char(0);
        if c0 == '-' {
            neg = true;
            start = 1;
        } else if c0 == '+' {
            start = 1;
        }
    }
    assert(s@.skip(start as int) =~= (if s@.len() > 0 && (s@[0] == '-' || s@[0] == '+') {
        s@.drop_first()
    } else {
        s@
    }));
    match parse_unsigned(s, n, start) {
        Reading::Value(m) => Reading::Value(
            if neg {
                -m
            } else {
                m
            },
        ),
        Reading::TooLarge => Reading::TooLarge,
        Reading::NotANumber => Reading::NotANumber,
    }
}

} // verus!
