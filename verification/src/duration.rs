//! Parsing of the wait duration given on the command line: a decimal
//! number with an optional unit suffix among `s`, `m`, `h` and `d`
//! (no suffix means seconds).

use vstd::prelude::*;
use vstd::string::StrSliceExecFns;

verus! {

/// A non-negative span of time, split into whole seconds and a
/// sub-second remainder in nanoseconds.
#[derive(Clone, Copy, Debug, PartialEq, Eq, Structural)]
pub struct WaitDuration {
    pub secs: u64,
    pub nanos: u32,
}

impl WaitDuration {
    /// The nanosecond part never reaches a whole second.
    pub open spec fn wf(self) -> bool {
        self.nanos < 1_000_000_000
    }
}

/// Why a duration string was rejected.
#[derive(Clone, Copy, Debug, PartialEq, Eq, Structural)]
pub enum DurationError {
    /// The input held no characters at all.
    Empty,
    /// A character other than digits, one decimal point, a leading sign
    /// and a trailing unit was found, or no digit was present.
    InvalidChar,
    /// The value was negative.
    Negative,
    /// The value does not fit in whole seconds of a 64-bit count.
    TooLarge,
}

/// Scale factor between the 14-digit fixed-point fraction used while
/// parsing and one nanosecond: `10^14 / 10^9`.
pub const FRAC_TO_NANO_DIV: u64 = 100_000;

/// Number of fractional decimal digits kept by the parser.
pub const FRAC_DIGITS: u64 = 14;

pub open spec fn is_digit(c: char) -> bool {
    48 <= (c as u32) && (c as u32) <= 57
}

pub open spec fn digit_val(c: char) -> int {
    (c as u32) - 48
}

pub open spec fn all_digits(s: Seq<char>) -> bool {
    forall|i: int| 0 <= i < s.len() ==> is_digit(#[trigger] s[i])
}

/// Some digit of `s` is not `'0'`.
pub open spec fn has_nonzero_digit(s: Seq<char>) -> bool {
    exists|i: int| 0 <= i < s.len() && digit_val(#[trigger] s[i]) != 0
}

/// Value of a string of decimal digits, most significant first.
pub open spec fn numeral_value(s: Seq<char>) -> int
    decreases s.len(),
{
    if s.len() == 0 {
        0
    } else {
        numeral_value(s.drop_last()) * 10 + digit_val(s.last())
    }
}

pub open spec fn pow10(n: nat) -> int
    decreases n,
{
    if n == 0 {
        1
    } else {
        10 * pow10((n - 1) as nat)
    }
}

pub proof fn lemma_pow10_pos(n: nat)
    ensures
        pow10(n) >= 1,
    decreases n,
{
    if n > 0 {
        lemma_pow10_pos((n - 1) as nat);
    }
}

pub proof fn lemma_pow10_monotone(m: nat, n: nat)
    requires
        m <= n,
    ensures
        pow10(m) <= pow10(n),
    decreases n,
{
    if m < n {
        lemma_pow10_monotone(m, (n - 1) as nat);
        lemma_pow10_pos((n - 1) as nat);
    }
}

pub proof fn lemma_numeral_bound(s: Seq<char>)
    requires
        all_digits(s),
    ensures
        0 <= numeral_value(s) < pow10(s.len()),
    decreases s.len(),
{
    if s.len() > 0 {
        assert(all_digits(s.drop_last())) by {
            assert(forall|i: int|
                0 <= i < s.drop_last().len() ==> #[trigger] s.drop_last()[i] == s[i]);
        }
        lemma_numeral_bound(s.drop_last());
        assert(is_digit(s.last()));
        assert(numeral_value(s.drop_last()) * 10 <= (pow10((s.len() - 1) as nat) - 1) * 10)
            by (nonlinear_arith)
            requires
                numeral_value(s.drop_last()) <= pow10((s.len() - 1) as nat) - 1,
        ;
    }
}

pub open spec fn is_unit_char(c: char) -> bool {
    c == 's' || c == 'm' || c == 'h' || c == 'd'
}

/// Seconds in one unit: days, hours, minutes, or (by default) seconds.
pub open spec fn unit_secs(c: char) -> int {
    if c == 'd' {
        86400
    } else if c == 'h' {
        3600
    } else if c == 'm' {
        60
    } else {
        1
    }
}

/// The input without its unit suffix, if one is present.
pub open spec fn spec_body(s: Seq<char>) -> Seq<char> {
    if s.len() > 0 && is_unit_char(s.last()) {
        s.drop_last()
    } else {
        s
    }
}

/// The unit multiplier the input's last character selects.
pub open spec fn spec_unit(s: Seq<char>) -> int {
    if s.len() > 0 && is_unit_char(s.last()) {
        unit_secs(s.last())
    } else {
        1
    }
}

/// The body carries a leading minus sign.
pub open spec fn spec_is_negative(body: Seq<char>) -> bool {
    body.len() > 0 && body[0] == '-'
}

/// The body without its sign, if one is present: the magnitude.
pub open spec fn spec_mag(body: Seq<char>) -> Seq<char> {
    if body.len() > 0 && (body[0] == '-' || body[0] == '+') {
        body.drop_first()
    } else {
        body
    }
}

/// The digits before the first decimal point of the magnitude.
pub open spec fn spec_int_digits(m: Seq<char>) -> Seq<char> {
    match m.index_of_first('.') {
        Some(d) => m.take(d),
        None => m,
    }
}

/// The characters after the first decimal point of the magnitude.
pub open spec fn spec_frac_digits(m: Seq<char>) -> Seq<char> {
    match m.index_of_first('.') {
        Some(d) => m.skip(d + 1),
        None => Seq::<char>::empty(),
    }
}

/// A magnitude is well formed when everything around its one optional
/// decimal point is a digit and at least one digit is present.
pub open spec fn wf_mag(m: Seq<char>) -> bool {
    &&& all_digits(spec_int_digits(m))
    &&& all_digits(spec_frac_digits(m))
    &&& spec_int_digits(m).len() + spec_frac_digits(m).len() >= 1
}

/// The fraction digits as a 14-digit fixed-point numerator: digits past
/// the fourteenth are cut off, missing ones count as zero.
pub open spec fn frac_scaled(f: Seq<char>) -> int {
    if f.len() >= 14 {
        numeral_value(f.take(14))
    } else {
        numeral_value(f) * pow10((14 - f.len()) as nat)
    }
}

/// The parsed value in whole nanoseconds: magnitude times unit, cut off
/// below one nanosecond.
pub open spec fn spec_total_nanos(m: Seq<char>, unit: int) -> int {
    (numeral_value(spec_int_digits(m)) * pow10(14) + frac_scaled(spec_frac_digits(m))) * unit
        / pow10(5)
}

/// What parsing an input yields: the value in seconds and nanoseconds,
/// or the error naming why it is rejected. Checks come in this order:
/// an empty input, a malformed magnitude, a negative value, a value
/// whose seconds exceed a 64-bit count.
pub open spec fn spec_parse_duration(s: Seq<char>) -> Result<WaitDuration, DurationError> {
    if s.len() == 0 {
        Err(DurationError::Empty)
    } else {
        let body = spec_body(s);
        let m = spec_mag(body);
        if !wf_mag(m) {
            Err(DurationError::InvalidChar)
        } else if spec_is_negative(body) && (has_nonzero_digit(spec_int_digits(m))
            || has_nonzero_digit(spec_frac_digits(m))) {
            Err(DurationError::Negative)
        } else {
            let tn = spec_total_nanos(m, spec_unit(s));
            if tn / 1_000_000_000 > u64::MAX {
                Err(DurationError::TooLarge)
            } else {
                Ok(WaitDuration { secs: (tn / 1_000_000_000) as u64, nanos: (tn % 1_000_000_000) as u32 })
            }
        }
    }
}

/// A scan that stops at the first decimal point pins down
/// `index_of_first`.
proof fn lemma_first_dot(m: Seq<char>, d: int)
    requires
        0 <= d <= m.len(),
        forall|k: int| 0 <= k < d ==> m[k] != '.',
        d < m.len() ==> m[d] == '.',
    ensures
        d < m.len() ==> m.index_of_first('.') == Some(d),
        d == m.len() ==> m.index_of_first('.') is None,
{
    m.index_of_first_ensures('.');
    if d < m.len() {
        assert(m.contains('.'));
        let idx = m.index_of_first('.').unwrap();
        assert(m[idx] == '.');
        if idx < d {
            assert(false);
        }
        if d < idx {
            assert(m[d] != '.');
            assert(false);
        }
    } else {
        if m.index_of_first('.') is Some {
            let idx = m.index_of_first('.').unwrap();
            assert(m[idx] != '.');
            assert(false);
        }
    }
}

proof fn lemma_pow10_values()
    ensures
        pow10(0) == 1,
        pow10(1) == 10,
        pow10(5) == 100_000,
        pow10(9) == 1_000_000_000,
        pow10(14) == 100_000_000_000_000,
{
    assert(pow10(0) == 1);
    assert(pow10(1) == 10);
    assert(pow10(2) == 100);
    assert(pow10(3) == 1000);
    assert(pow10(4) == 10_000);
    assert(pow10(5) == 100_000);
    assert(pow10(6) == 1_000_000);
    assert(pow10(7) == 10_000_000);
    assert(pow10(8) == 100_000_000);
    assert(pow10(9) == 1_000_000_000);
    assert(pow10(10) == 10_000_000_000);
    assert(pow10(11) == 100_000_000_000);
    assert(pow10(12) == 1_000_000_000_000);
    assert(pow10(13) == 10_000_000_000_000);
    assert(pow10(14) == 100_000_000_000_000);
}

proof fn lemma_pow10_adds(a: nat, b: nat)
    ensures
        pow10(a + b) == pow10(a) * pow10(b),
    decreases b,
{
    if b == 0 {
        assert(pow10(a) * 1 == pow10(a));
    } else {
        lemma_pow10_adds(a, (b - 1) as nat);
        assert(pow10(a + b) == 10 * pow10((a + b - 1) as nat));
        assert(pow10(a) * (10 * pow10((b - 1) as nat)) == 10 * (pow10(a) * pow10(
            (b - 1) as nat,
        ))) by (nonlinear_arith);
    }
}

/// Adding `a` multiples of `d` shifts the quotient by `a` and keeps the
/// remainder.
proof fn lemma_div_shift(a: int, y: int, d: int)
    requires
        d > 0,
        y >= 0,
        a >= 0,
    ensures
        (a * d + y) / d == a + y / d,
        (a * d + y) % d == y % d,
{
    vstd::arithmetic::div_mod::lemma_fundamental_div_mod(y, d);
    assert(0 <= y % d < d) by {
        vstd::arithmetic::div_mod::lemma_mod_division_less_than_divisor(y, d);
    }
    assert(y / d >= 0) by {
        vstd::arithmetic::div_mod::lemma_div_pos_is_pos(y, d);
    }
    assert(a * d + y == (a + y / d) * d + y % d) by (nonlinear_arith)
        requires
            y == d * (y / d) + y % d,
    ;
    vstd::arithmetic::div_mod::lemma_fundamental_div_mod_converse(
        a * d + y,
        d,
        a + y / d,
        y % d,
    );
}

/// Ten to the power of a small exponent, executably.
fn pow10_u64(n: u64) -> (r: u64)
    requires
        n <= 14,
    ensures
        r as int == pow10(n as nat),
{
    let mut r: u64 = 1;
    let mut i: u64 = 0;
    proof {
        lemma_pow10_values();
    }
    while i < n
        invariant
            i <= n,
            n <= 14,
            r as int == pow10(i as nat),
        decreases n - i,
    {
        proof {
            lemma_pow10_monotone((i + 1) as nat, 14);
            lemma_pow10_values();
        }
        r = r * 10;
        i = i + 1;
    }
    r
}

/// Parses a duration given as a decimal number with an optional sign,
/// an optional fraction and an optional unit among `s`, `m`, `h` and
/// `d`; without a unit the number counts seconds. Returns exactly what
/// [`spec_parse_duration`] describes.
#[verifier::loop_isolation(false)]
#[verifier::rlimit(100)]
pub fn parse_duration(s: &str) -> (r: Result<WaitDuration, DurationError>)
    ensures
        r == spec_parse_duration(s@),
        r matches Ok(d) ==> d.wf(),
{
    let n = s.unicode_len();
    if n == 0 {
        return Err(DurationError::Empty);
    }
    let last = s.get_char(n - 1);
    let has_unit = last == 's' || last == 'm' || last == 'h' || last == 'd';
    let unit: u64 = if last == 'd' {
        86400
    } else if last == 'h' {
        3600
    } else if last == 'm' {
        60
    } else {
        1
    };
    let body_end: usize = if has_unit { n - 1 } else { n };
    let ghost body = spec_body(s@);
    proof {
        assert(body =~= s@.take(body_end as int));
        assert(unit as int == spec_unit(s@));
    }
    let mut start: usize = 0;
    let mut negative: bool = false;
    if body_end > 0 {
        let c0 = s.get_char(0);
        if c0 == '-' || c0 == '+' {
            start = 1;
            negative = c0 == '-';
        }
    }
    let ghost m = spec_mag(body);
    proof {
        assert(m =~= s@.subrange(start as int, body_end as int));
        assert(negative == spec_is_negative(body));
    }
    let dot = find_dot(s, start, body_end);
    let ghost intd = spec_int_digits(m);
    let ghost fracd = spec_frac_digits(m);
    proof {
        assert(forall|k: int| 0 <= k < m.len() ==> m[k] == s@[start + k]);
        assert(start <= dot <= body_end);
        assert(m.len() == body_end - start);
        assert(forall|k: int| 0 <= k < dot - start ==> m[k] != '.');
        assert(dot < body_end ==> m[dot - start] == '.');
        lemma_first_dot(m, dot - start);
        assert(intd =~= s@.subrange(start as int, dot as int));
        if dot < body_end {
            assert(fracd =~= s@.subrange(dot as int + 1, body_end as int));
        } else {
            assert(fracd =~= Seq::<char>::empty());
        }
    }
    let int_len: usize = dot - start;
    let frac_len: usize = if dot < body_end { body_end - dot - 1 } else { 0 };
    if int_len == 0 && frac_len == 0 {
        assert(!wf_mag(m));
        return Err(DurationError::InvalidChar);
    }
    let int_scan = scan_int_digits(s, start, dot);
    let (iv, int_overflow, nz_int) = match int_scan {
        None => {
            assert(!wf_mag(m));
            return Err(DurationError::InvalidChar);
        },
        Some(t) => t,
    };
    let frac_from: usize = if dot < body_end {
        dot + 1
    } else {
        body_end
    };
    proof {
        assert(fracd =~= s@.subrange(frac_from as int, body_end as int));
    }
    let frac_scan = scan_frac_digits(s, frac_from, body_end);
    let (fv, nz_frac) = match frac_scan {
        None => {
            assert(!wf_mag(m));
            return Err(DurationError::InvalidChar);
        },
        Some(t) => t,
    };
    assert(wf_mag(m));
    if negative && (nz_int || nz_frac) {
        return Err(DurationError::Negative);
    }
    let ghost av = numeral_value(intd);
    let ghost bv = frac_scaled(fracd);
    let ghost tn = spec_total_nanos(m, spec_unit(s@));
    proof {
        lemma_pow10_values();
        lemma_numeral_bound(intd);
        lemma_frac_scaled_bound(fracd);
    }
    if int_overflow {
        proof {
            lemma_total_floor(av, bv, unit as int);
        }
        return Err(DurationError::TooLarge);
    }
    let fk: usize = if frac_len < 14 { frac_len } else { 14 };
    proof {
        lemma_frac_fixed_point(fracd, fk as int, fv as int);
    }
    let mult = pow10_u64((14 - fk) as u64);
    let f14: u64 = fv * mult;
    let fr = finish_value(iv, unit, f14);
    proof {
        assert(tn == ((iv as int) * pow10(14) + f14 as int) * (unit as int) / pow10(5));
    }
    fr
}

/// Position of the first decimal point in `s[from..to]`, or `to` when
/// there is none.
fn find_dot(s: &str, from: usize, to: usize) -> (dot: usize)
    requires
        from <= to <= s@.len(),
    ensures
        from <= dot <= to,
        forall|k: int| from <= k < dot ==> s@[k] != '.',
        dot < to ==> s@[dot as int] == '.',
{
    let mut dot: usize = to;
    let mut i: usize = from;
    while i < to
        invariant
            from <= i <= to <= s@.len(),
            dot <= to,
            dot == to ==> forall|k: int| from <= k < i ==> s@[k] != '.',
            dot < to ==> (from <= dot && i == to && s@[dot as int] == '.' && forall|k: int|
                from <= k < dot ==> s@[k] != '.'),
        decreases to - i,
    {
        if s.get_char(i) == '.' {
            dot = i;
            i = to;
        } else {
            i = i + 1;
        }
    }
    dot
}

/// Scans `s[from..to]` as the digits before the decimal point: their
/// value, whether it exceeds a 64-bit count, and whether any digit is
/// other than zero. `None` when some character is no digit.
fn scan_int_digits(s: &str, from: usize, to: usize) -> (r: Option<(u64, bool, bool)>)
    requires
        from <= to <= s@.len(),
    ensures
        ({
            let digs = s@.subrange(from as int, to as int);
            match r {
                None => !all_digits(digs),
                Some(t) => {
                    &&& all_digits(digs)
                    &&& t.2 == has_nonzero_digit(digs)
                    &&& !t.1 ==> t.0 as int == numeral_value(digs)
                    &&& t.1 ==> numeral_value(digs) > u64::MAX
                },
            }
        }),
{
    let ghost digs = s@.subrange(from as int, to as int);
    let mut iv: u64 = 0;
    let mut overflow: bool = false;
    let mut nonzero: bool = false;
    let mut j: usize = 0;
    while j < to - from
        invariant
            from <= to <= s@.len(),
            0 <= j <= to - from,
            digs == s@.subrange(from as int, to as int),
            all_digits(digs.take(j as int)),
            nonzero == has_nonzero_digit(digs.take(j as int)),
            0 <= numeral_value(digs.take(j as int)),
            !overflow ==> iv as int == numeral_value(digs.take(j as int)),
            overflow ==> numeral_value(digs.take(j as int)) > u64::MAX,
        decreases to - from - j,
    {
        let c = s.get_char(from + j);
        let code = c as u32;
        if code < 48 || code > 57 {
            assert(!is_digit(digs[j as int]));
            return None;
        }
        let d: u64 = (code - 48) as u64;
        proof {
            assert(digs.take(j as int + 1).drop_last() =~= digs.take(j as int));
            assert(digs.take(j as int + 1).last() == digs[j as int]);
            assert(numeral_value(digs.take(j as int + 1)) == numeral_value(digs.take(j as int))
                * 10 + digit_val(digs[j as int]));
        }
        if !overflow {
            match iv.checked_mul(10) {
                Some(t) => {
                    match t.checked_add(d) {
                        Some(v) => {
                            iv = v;
                        },
                        None => {
                            overflow = true;
                        },
                    }
                },
                None => {
                    overflow = true;
                },
            }
        }
        let dz = d != 0;
        nonzero = nonzero || dz;
        proof {
            if dz {
                assert(has_nonzero_digit(digs.take(j as int + 1))) by {
                    assert(digit_val(digs.take(j as int + 1)[j as int]) != 0);
                }
            }
        }
        j = j + 1;
    }
    proof {
        assert(digs.take(to - from) =~= digs);
    }
    Some((iv, overflow, nonzero))
}

/// Scans `s[from..to]` as the digits after the decimal point: their
/// value as a fixed-point numerator over the first fourteen digits, and
/// whether any digit is other than zero. `None` when some character is
/// no digit.
fn scan_frac_digits(s: &str, from: usize, to: usize) -> (r: Option<(u64, bool)>)
    requires
        from <= to <= s@.len(),
    ensures
        ({
            let digs = s@.subrange(from as int, to as int);
            let fk = if digs.len() < 14 {
                digs.len() as int
            } else {
                14
            };
            match r {
                None => !all_digits(digs),
                Some(t) => {
                    &&& all_digits(digs)
                    &&& t.1 == has_nonzero_digit(digs)
                    &&& t.0 as int == numeral_value(digs.take(fk))
                    &&& (t.0 as int) < pow10(fk as nat)
                },
            }
        }),
{
    let ghost digs = s@.subrange(from as int, to as int);
    let mut fv: u64 = 0;
    let mut nonzero: bool = false;
    let mut j: usize = 0;
    while j < to - from
        invariant
            from <= to <= s@.len(),
            0 <= j <= to - from,
            digs == s@.subrange(from as int, to as int),
            all_digits(digs.take(j as int)),
            nonzero == has_nonzero_digit(digs.take(j as int)),
            j <= 14 ==> (fv as int == numeral_value(digs.take(j as int)) && (fv as int) < pow10(
                j as nat,
            )),
            j > 14 ==> (fv as int == numeral_value(digs.take(14)) && (fv as int) < pow10(14)),
        decreases to - from - j,
    {
        let c = s.get_char(from + j);
        let code = c as u32;
        if code < 48 || code > 57 {
            assert(!is_digit(digs[j as int]));
            return None;
        }
        let d: u64 = (code - 48) as u64;
        proof {
            assert(digs.take(j as int + 1).drop_last() =~= digs.take(j as int));
            assert(digs.take(j as int + 1).last() == digs[j as int]);
            assert(numeral_value(digs.take(j as int + 1)) == numeral_value(digs.take(j as int))
                * 10 + digit_val(digs[j as int]));
        }
        if j < 14 {
            proof {
                lemma_pow10_values();
                lemma_pow10_monotone((j + 1) as nat, 14);
            }
            fv = fv * 10 + d;
        } else {
            proof {
                assert(digs.take(14) =~= digs.take(j as int + 1).take(14));
            }
        }
        let dz = d != 0;
        nonzero = nonzero || dz;
        proof {
            if dz {
                assert(has_nonzero_digit(digs.take(j as int + 1))) by {
                    assert(digit_val(digs.take(j as int + 1)[j as int]) != 0);
                }
            }
        }
        j = j + 1;
    }
    proof {
        assert(digs.take(to - from) =~= digs);
    }
    Some((fv, nonzero))
}

/// Combines the integer value, the fixed-point fraction and the unit
/// into seconds and nanoseconds, or reports that the seconds overflow.
fn finish_value(iv: u64, unit: u64, f14: u64) -> (r: Result<WaitDuration, DurationError>)
    requires
        1 <= unit <= 86400,
        (f14 as int) < pow10(14),
    ensures
        ({
            let tn = ((iv as int) * pow10(14) + f14 as int) * (unit as int) / pow10(5);
            if tn / 1_000_000_000 > u64::MAX {
                r == Err::<WaitDuration, DurationError>(DurationError::TooLarge)
            } else {
                r == Ok::<WaitDuration, DurationError>(
                    WaitDuration {
                        secs: (tn / 1_000_000_000) as u64,
                        nanos: (tn % 1_000_000_000) as u32,
                    },
                ) && (r matches Ok(d) && d.wf())
            }
        }),
{
    proof {
        lemma_pow10_values();
        lemma_total_nanos_parts(iv as int, f14 as int, unit as int);
    }
    let ghost tn = ((iv as int) * pow10(14) + f14 as int) * (unit as int) / pow10(5);
    assert((f14 as int) * (unit as int) <= (pow10(14) - 1) * 86400) by (nonlinear_arith)
        requires
            0 <= (f14 as int) <= pow10(14) - 1,
            1 <= (unit as int) <= 86400,
    ;
    let prod: u64 = f14 * unit;
    let frac_ns: u64 = prod / 100_000;
    let frac_secs: u64 = frac_ns / 1_000_000_000;
    let nanos_part: u64 = frac_ns % 1_000_000_000;
    proof {
        assert(tn == ((iv as int) * (unit as int)) * pow10(9) + frac_ns as int);
        lemma_div_shift((iv as int) * (unit as int), frac_ns as int, 1_000_000_000);
        assert(tn / 1_000_000_000 == (iv as int) * (unit as int) + frac_secs as int);
        assert(tn % 1_000_000_000 == nanos_part as int);
    }
    match iv.checked_mul(unit) {
        None => Err(DurationError::TooLarge),
        Some(base) => {
            match base.checked_add(frac_secs) {
                None => Err(DurationError::TooLarge),
                Some(total) => Ok(WaitDuration { secs: total, nanos: nanos_part as u32 }),
            }
        },
    }
}

/// The running fraction value, padded to fourteen digits, is exactly
/// the fixed-point fraction of the whole fraction string.
proof fn lemma_frac_fixed_point(f: Seq<char>, fk: int, fv: int)
    requires
        all_digits(f),
        fk == if f.len() < 14 { f.len() as int } else { 14 },
        fv == numeral_value(f.take(fk)),
    ensures
        fv * pow10((14 - fk) as nat) == frac_scaled(f),
        0 <= fv * pow10((14 - fk) as nat) < pow10(14),
{
    assert(f.take(f.len() as int) =~= f);
    lemma_frac_scaled_bound(f);
    if f.len() < 14 {
        assert(fv * pow10((14 - fk) as nat) == frac_scaled(f));
    } else {
        lemma_pow10_values();
        assert(pow10(0) == 1);
        assert(fv * 1 == fv);
    }
}

/// The fixed-point fraction is below one whole unit.
proof fn lemma_frac_scaled_bound(f: Seq<char>)
    requires
        all_digits(f),
    ensures
        0 <= frac_scaled(f) < pow10(14),
{
    if f.len() >= 14 {
        assert(all_digits(f.take(14))) by {
            assert(forall|i: int| 0 <= i < 14 ==> f.take(14)[i] == f[i]);
        }
        lemma_numeral_bound(f.take(14));
    } else {
        lemma_numeral_bound(f);
        lemma_pow10_adds(f.len(), (14 - f.len()) as nat);
        lemma_pow10_pos((14 - f.len()) as nat);
        assert(numeral_value(f) * pow10((14 - f.len()) as nat) <= (pow10(f.len()) - 1) * pow10(
            (14 - f.len()) as nat,
        ) && 0 <= numeral_value(f) * pow10((14 - f.len()) as nat)) by (nonlinear_arith)
            requires
                0 <= numeral_value(f) <= pow10(f.len()) - 1,
                pow10((14 - f.len()) as nat) >= 1,
        ;
        assert((pow10(f.len()) - 1) * pow10((14 - f.len()) as nat) == pow10(14) - pow10(
            (14 - f.len()) as nat,
        )) by (nonlinear_arith)
            requires
                pow10(f.len()) * pow10((14 - f.len()) as nat) == pow10(14),
        ;
    }
}

/// The total in nanoseconds splits into a whole-second part from the
/// integer digits and a part from the fraction.
proof fn lemma_total_nanos_parts(a: int, b: int, u: int)
    requires
        a >= 0,
        0 <= b,
        u >= 1,
    ensures
        (a * pow10(14) + b) * u / pow10(5) == (a * u) * pow10(9) + (b * u) / pow10(5),
        (a * u) * pow10(9) >= 0,
        b * u >= 0,
{
    lemma_pow10_values();
    lemma_pow10_adds(9, 5);
    assert((a * pow10(14) + b) * u == ((a * u) * pow10(9)) * pow10(5) + b * u) by (nonlinear_arith)
        requires
            pow10(14) == pow10(9) * pow10(5),
    ;
    assert((a * u) * pow10(9) >= 0 && b * u >= 0) by (nonlinear_arith)
        requires
            a >= 0,
            b >= 0,
            u >= 1,
            pow10(9) > 0,
    ;
    lemma_div_shift((a * u) * pow10(9), b * u, 100_000);
}

/// When the integer digits alone exceed the second count, so does the
/// whole value.
proof fn lemma_total_floor(a: int, b: int, u: int)
    requires
        a > u64::MAX,
        0 <= b,
        u >= 1,
    ensures
        (a * pow10(14) + b) * u / pow10(5) / pow10(9) > u64::MAX,
{
    lemma_pow10_values();
    lemma_total_nanos_parts(a, b, u);
    let tn = (a * pow10(14) + b) * u / pow10(5);
    assert(tn == (a * u) * pow10(9) + (b * u) / pow10(5));
    assert((b * u) / pow10(5) >= 0) by {
        vstd::arithmetic::div_mod::lemma_div_pos_is_pos(b * u, 100_000);
    }
    lemma_div_shift(a * u, (b * u) / pow10(5), 1_000_000_000);
    assert(tn / pow10(9) == a * u + ((b * u) / pow10(5)) / 1_000_000_000);
    assert(((b * u) / pow10(5)) / 1_000_000_000 >= 0) by {
        vstd::arithmetic::div_mod::lemma_div_pos_is_pos((b * u) / 100_000, 1_000_000_000);
    }
    assert(a * u >= a) by (nonlinear_arith)
        requires
            a > 0,
            u >= 1,
    ;
}

/// A magnitude made of digits alone: well formed, no fraction, and its
/// value in nanoseconds is the numeral times the unit, whole seconds
/// exactly.
proof fn lemma_digits_magnitude(m: Seq<char>, u: int)
    requires
        all_digits(m),
        m.len() > 0,
        1 <= u,
        numeral_value(m) * u <= u64::MAX,
    ensures
        wf_mag(m),
        spec_total_nanos(m, u) / 1_000_000_000 == numeral_value(m) * u,
        spec_total_nanos(m, u) % 1_000_000_000 == 0,
{
    lemma_pow10_values();
    assert(forall|k: int| 0 <= k < m.len() ==> m[k] != '.') by {
        assert(forall|k: int| 0 <= k < m.len() ==> 48 <= (#[trigger] m[k] as u32) <= 57);
    }
    lemma_first_dot(m, m.len() as int);
    assert(spec_int_digits(m) == m);
    assert(spec_frac_digits(m) == Seq::<char>::empty());
    lemma_numeral_bound(m);
    let a = numeral_value(m);
    assert(frac_scaled(Seq::<char>::empty()) == 0) by {
        assert(numeral_value(Seq::<char>::empty()) == 0);
    }
    lemma_total_nanos_parts(a, 0, u);
    assert(spec_total_nanos(m, u) == (a * u) * pow10(9)) by {
        assert(0int / 100_000 == 0);
        assert((0int) * u == 0);
    }
    lemma_div_shift(a * u, 0, 1_000_000_000);
    assert((a * u) * pow10(9) + 0 == (a * u) * pow10(9));
    assert(0int / 1_000_000_000 == 0 && 0int % 1_000_000_000 == 0);
}

/// A whole number with a unit parses to the number times the seconds of
/// that unit, exactly: `"2m"` is 120 seconds, `"1d"` is 86400.
pub proof fn lemma_parse_number_with_unit(digits: Seq<char>, unit: char)
    requires
        digits.len() > 0,
        all_digits(digits),
        is_unit_char(unit),
        numeral_value(digits) * unit_secs(unit) <= u64::MAX,
    ensures
        spec_parse_duration(digits.push(unit)) == Ok::<WaitDuration, DurationError>(
            WaitDuration {
                secs: (numeral_value(digits) * unit_secs(unit)) as u64,
                nanos: 0u32,
            },
        ),
{
    let s = digits.push(unit);
    let u = unit_secs(unit);
    assert(s.last() == unit);
    assert(spec_body(s) =~= digits);
    assert(spec_unit(s) == u);
    assert(48 <= (digits[0] as u32) <= 57);
    assert(digits[0] != '-' && digits[0] != '+');
    assert(spec_mag(digits) == digits);
    assert(!spec_is_negative(digits));
    assert(1 <= u);
    lemma_digits_magnitude(digits, u);
}

/// A whole number without a unit parses to that many seconds: `"5"` is
/// 5 seconds.
pub proof fn lemma_parse_number_no_unit(digits: Seq<char>)
    requires
        digits.len() > 0,
        all_digits(digits),
        numeral_value(digits) <= u64::MAX,
    ensures
        spec_parse_duration(digits) == Ok::<WaitDuration, DurationError>(
            WaitDuration { secs: numeral_value(digits) as u64, nanos: 0u32 },
        ),
{
    assert(48 <= (digits.last() as u32) <= 57);
    assert(!is_unit_char(digits.last()));
    assert(spec_body(digits) == digits);
    assert(spec_unit(digits) == 1);
    assert(48 <= (digits[0] as u32) <= 57);
    assert(digits[0] != '-' && digits[0] != '+');
    assert(spec_mag(digits) == digits);
    assert(!spec_is_negative(digits));
    lemma_digits_magnitude(digits, 1);
    assert(numeral_value(digits) * 1 == numeral_value(digits));
}

/// An input with a leading minus sign and any digit other than zero is
/// never accepted, whatever unit suffix it carries.
pub proof fn lemma_negative_rejected(s: Seq<char>)
    requires
        s.len() > 0,
        s[0] == '-',
        exists|i: int| 0 <= i < s.len() && 49 <= (#[trigger] s[i] as u32) <= 57,
    ensures
        spec_parse_duration(s) is Err,
{
    let body = spec_body(s);
    let m = spec_mag(body);
    if wf_mag(m) {
        let i = choose|i: int| 0 <= i < s.len() && 49 <= (#[trigger] s[i] as u32) <= 57;
        assert(s[i] != '-' && s[i] != '.');
        assert(i != 0);
        assert(is_unit_char(s.last()) ==> !(49 <= (s.last() as u32) <= 57));
        assert(i < body.len());
        assert(body[0] == '-');
        assert(spec_is_negative(body));
        let j = i - 1;
        assert(m == body.drop_first());
        assert(m[j] == body[i] == s[i]);
        m.index_of_first_ensures('.');
        match m.index_of_first('.') {
            Some(dp) => {
                assert(m[dp] == '.');
                assert(j != dp);
                if j < dp {
                    assert(spec_int_digits(m)[j] == m[j]);
                    assert(has_nonzero_digit(spec_int_digits(m))) by {
                        assert(digit_val(spec_int_digits(m)[j]) != 0);
                    }
                } else {
                    assert(spec_frac_digits(m)[j - dp - 1] == m[j]);
                    assert(has_nonzero_digit(spec_frac_digits(m))) by {
                        assert(digit_val(spec_frac_digits(m)[j - dp - 1]) != 0);
                    }
                }
            },
            None => {
                assert(spec_int_digits(m) == m);
                assert(has_nonzero_digit(m)) by {
                    assert(digit_val(m[j]) != 0);
                }
            },
        }
    }
}

} // verus!
