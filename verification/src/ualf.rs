use vstd::prelude::*;
use vstd::string::StringSliceAdditionalSpecFns;

verus! {

/// A lightning strike report: one point-in-time event from the upstream feed.
///
/// Latitude and longitude are held in microdegrees (degrees scaled by
/// 1_000_000), so the whole record is made of plain integers and booleans.
/// Identity for deduplication purposes is the timestamp alone.
#[derive(Debug, Clone, Copy, PartialEq, Eq, Structural)]
pub struct UalfData {
    pub epoch_ns: i64,
    pub latitude: i64,
    pub longitude: i64,
    pub peak_current: i16,
    pub cloud_indicator: bool,
}

/// A decimal number as a UALF field carries it: sign, integer part, and the
/// fractional part truncated to six places (microunits).
pub struct DecVal {
    pub neg: bool,
    pub ip: int,
    pub fr: int,
}

/// ASCII decimal digit.
pub open spec fn is_digit(b: u8) -> bool {
    48 <= b <= 57
}

/// Every byte is a decimal digit.
pub open spec fn all_digits(s: Seq<u8>) -> bool {
    forall|i: int| 0 <= i < s.len() ==> is_digit(#[trigger] s[i])
}

/// The number the digit string names.
pub open spec fn digits_val(s: Seq<u8>) -> int
    decreases s.len(),
{
    if s.len() == 0 {
        0
    } else {
        digits_val(s.drop_last()) * 10 + (s.last() - 48)
    }
}

/// Scale that brings `k` written fractional digits to six places.
pub open spec fn frac_scale(k: int) -> int {
    if k <= 0 {
        1_000_000
    } else if k == 1 {
        100_000
    } else if k == 2 {
        10_000
    } else if k == 3 {
        1_000
    } else if k == 4 {
        100
    } else if k == 5 {
        10
    } else {
        1
    }
}

/// The fractional digit string as microunits: the first six digits count,
/// anything further is truncated away.
pub open spec fn frac_val6(s: Seq<u8>) -> int {
    if s.len() <= 6 {
        digits_val(s) * frac_scale(s.len() as int)
    } else {
        digits_val(s.take(6))
    }
}

/// Index of the first occurrence of `b` in `s`, or the length when absent.
pub open spec fn first_byte(s: Seq<u8>, b: u8) -> int
    decreases s.len(),
{
    if s.len() == 0 {
        0
    } else if s[0] == b {
        0
    } else {
        1 + first_byte(s.drop_first(), b)
    }
}

/// The number a token names, when the token is an optionally signed decimal
/// — `sign? digits`, `sign? digits . digits?` or `sign? . digits` — whose
/// microunit magnitude fits the 64-bit range. Any other token (empty, a
/// stray character, a second decimal point, or an overflowing magnitude)
/// names nothing and is dropped, as a number the upstream feed's format does
/// not allow.
pub open spec fn parse_decimal(t: Seq<u8>) -> Option<DecVal> {
    let has_sign = t.len() > 0 && (t[0] == 43 || t[0] == 45);
    let neg = t.len() > 0 && t[0] == 45;
    let body = if has_sign {
        t.drop_first()
    } else {
        t
    };
    let di = first_byte(body, 46);
    let intpart = body.take(di);
    let frac = if di < body.len() {
        body.skip(di + 1)
    } else {
        Seq::empty()
    };
    if body.len() > 0 && all_digits(intpart) && all_digits(frac) && (intpart.len() > 0
        || frac.len() > 0) && digits_val(intpart) * 1_000_000 + frac_val6(frac) <= i64::MAX {
        Some(DecVal { neg, ip: digits_val(intpart), fr: frac_val6(frac) })
    } else {
        None
    }
}

/// The value in microunits, signed.
pub open spec fn dv_micro(d: DecVal) -> int {
    if d.neg {
        -(d.ip * 1_000_000 + d.fr)
    } else {
        d.ip * 1_000_000 + d.fr
    }
}

/// The value truncated toward zero to an integer, signed.
pub open spec fn dv_trunc(d: DecVal) -> int {
    if d.neg {
        -d.ip
    } else {
        d.ip
    }
}

/// Saturating clamp into a machine integer range, as a float-to-integer cast
/// behaves.
pub open spec fn clamp(v: int, lo: int, hi: int) -> int {
    if v < lo {
        lo
    } else if v > hi {
        hi
    } else {
        v
    }
}

/// All numbers named by the space-separated tokens of the line, in order;
/// tokens that name no number are dropped.
pub open spec fn parsed_values(s: Seq<u8>) -> Seq<DecVal>
    decreases s.len(),
        when true
        via parsed_values_decreases
{
    let i = first_byte(s, 32);
    let head = match parse_decimal(s.take(i)) {
        Some(d) => seq![d],
        None => Seq::empty(),
    };
    if i >= s.len() {
        head
    } else {
        head + parsed_values(s.skip(i + 1))
    }
}

/// The first-occurrence index is within the sequence, names `b` when it is,
/// and nothing before it does.
pub proof fn lemma_first_byte(s: Seq<u8>, b: u8)
    ensures
        0 <= first_byte(s, b) <= s.len(),
        first_byte(s, b) < s.len() ==> s[first_byte(s, b)] == b,
        forall|k: int| 0 <= k < first_byte(s, b) ==> s[k] != b,
    decreases s.len(),
{
    if s.len() > 0 && s[0] != b {
        lemma_first_byte(s.drop_first(), b);
        assert forall|k: int| 0 <= k < first_byte(s, b) implies s[k] != b by {
            if k > 0 {
                assert(s.drop_first()[k - 1] == s[k]);
            }
        }
    }
}

/// The first occurrence is wherever `b` first stands.
pub proof fn lemma_first_byte_is(s: Seq<u8>, b: u8, i: int)
    requires
        0 <= i <= s.len(),
        forall|k: int| 0 <= k < i ==> s[k] != b,
        i < s.len() ==> s[i] == b,
    ensures
        first_byte(s, b) == i,
    decreases s.len(),
{
    if s.len() > 0 && s[0] != b {
        lemma_first_byte_is(s.drop_first(), b, i - 1);
    }
}

#[via_fn]
proof fn parsed_values_decreases(s: Seq<u8>) {
    lemma_first_byte(s, 32);
}

/// A digit string names a number no smaller than zero.
proof fn lemma_digits_val_nonneg(s: Seq<u8>)
    requires
        all_digits(s),
    ensures
        digits_val(s) >= 0,
    decreases s.len(),
{
    if s.len() > 0 {
        assert(all_digits(s.drop_last()));
        lemma_digits_val_nonneg(s.drop_last());
    }
}

/// Reading more digits never shrinks the number.
proof fn lemma_digits_val_prefix(s: Seq<u8>, k: int)
    requires
        all_digits(s),
        0 <= k <= s.len(),
    ensures
        digits_val(s.take(k)) <= digits_val(s),
    decreases s.len(),
{
    assert(all_digits(s.take(k)));
    lemma_digits_val_nonneg(s.take(k));
    if k < s.len() {
        assert(all_digits(s.drop_last()));
        assert(s.drop_last().take(k) =~= s.take(k));
        lemma_digits_val_prefix(s.drop_last(), k);
        lemma_digits_val_nonneg(s.drop_last());
        assert(is_digit(s[s.len() - 1]));
        assert(s.last() == s[s.len() - 1]);
        assert(digits_val(s) == digits_val(s.drop_last()) * 10 + (s.last() - 48));
        assert(digits_val(s.drop_last()) * 10 >= digits_val(s.drop_last()));
        assert(digits_val(s.take(k)) <= digits_val(s.drop_last()));
        assert(digits_val(s) >= digits_val(s.drop_last()) + (s.last() - 48));
        assert(s.last() - 48 >= 0);
    } else {
        assert(s.take(k) =~= s);
    }
}


/// Ten to the `k`-th power.
pub open spec fn pow10s(k: int) -> int
    decreases (if k <= 0 { 0int } else { k }),
{
    if k <= 0 {
        1
    } else {
        10 * pow10s(k - 1)
    }
}

/// A digit string of length `k` names a number below ten to the `k`-th.
proof fn lemma_digits_lt_pow(s: Seq<u8>)
    requires
        all_digits(s),
    ensures
        0 <= digits_val(s) < pow10s(s.len() as int),
    decreases s.len(),
{
    if s.len() > 0 {
        assert(all_digits(s.drop_last()));
        lemma_digits_lt_pow(s.drop_last());
        assert(is_digit(s[s.len() - 1]));
        assert(s.last() == s[s.len() - 1]);
    }
}

/// The exec side of `parse_decimal`: the same grammar and the same number,
/// over machine integers, with the bounds every stored value satisfies.
#[verifier::loop_isolation(false)]
#[verifier::rlimit(100)]
fn parse_decimal_exec(t: &[u8]) -> (r: Option<(bool, i64, i64)>)
    ensures
        match r {
            Some(v) => {
                &&& parse_decimal(t@) == Some(DecVal { neg: v.0, ip: v.1 as int, fr: v.2 as int })
                &&& 0 <= v.1
                &&& 0 <= v.2 <= 999_999
                &&& v.1 * 1_000_000 + v.2 <= i64::MAX
            },
            None => parse_decimal(t@) is None,
        },
{
    let len = t.len();
    let mut pos: usize = 0;
    let mut neg = false;
    if len > 0 && (t[0] == 43 || t[0] == 45) {
        neg = t[0] == 45;
        pos = 1;
    }
    let ghost body = if pos == 1 {
        t@.drop_first()
    } else {
        t@
    };
    proof {
        assert(body =~= t@.subrange(pos as int, len as int));
    }
    if pos >= len {
        return None;
    }

    // Find the decimal point.
    let mut di: usize = pos;
    let mut dot_found = false;
    while !dot_found && di < len
        invariant
            pos <= di <= len,
            len == t@.len(),
            forall|k: int| pos <= k < di ==> t@[k] != 46,
            dot_found ==> di < len && t@[di as int] == 46,
        decreases len - di + (if dot_found { 0int } else { 1int }),
    {
        if t[di] == 46 {
            dot_found = true;
        } else {
            di = di + 1;
        }
    }
    proof {
        assert forall|k: int| 0 <= k < di - pos implies body[k] != 46 by {
            assert(body[k] == t@[k + pos]);
        }
        if di < len {
            assert(body[di - pos] == t@[di as int]);
        }
        lemma_first_byte_is(body, 46, di - pos);
    }
    let ghost intpart = body.take(di - pos);
    let ghost frac: Seq<u8> = if di < len {
        body.skip(di - pos + 1)
    } else {
        Seq::empty()
    };
    proof {
        assert(intpart =~= t@.subrange(pos as int, di as int));
        if di < len {
            assert(frac =~= t@.subrange(di + 1, len as int));
        }
    }
    if di == pos && di >= len - 1 && dot_found {
        // Only a dot after the sign: both parts empty.
        return None;
    }

    // Integer part.
    let mut ip: i128 = 0;
    let mut j = pos;
    while j < di
        invariant
            pos <= j <= di <= len,
            len == t@.len(),
            intpart == t@.subrange(pos as int, di as int),
            forall|k: int| pos <= k < j ==> is_digit(#[trigger] t@[k]),
            ip == digits_val(t@.subrange(pos as int, j as int)),
            0 <= ip <= i64::MAX as i128 * 10 + 9,
        decreases di - j,
    {
        let b = t[j];
        if b < 48 || b > 57 {
            proof {
                assert(!is_digit(intpart[j - pos]));
            }
            return None;
        }
        if ip > i64::MAX as i128 {
            proof {
                lemma_ip_too_big(t@, pos as int, j as int, di as int, len as int, body, intpart, frac);
            }
            return None;
        }
        ip = ip * 10 + (b - 48) as i128;
        proof {
            assert(t@.subrange(pos as int, j + 1).drop_last() =~= t@.subrange(
                pos as int,
                j as int,
            ));
            assert(t@.subrange(pos as int, j + 1).last() == t@[j as int]);
        }
        j = j + 1;
    }
    proof {
        assert(t@.subrange(pos as int, di as int) == intpart);
        assert(all_digits(intpart));
    }

    // Fractional part: the first six digits count.
    let mut fr_acc: i64 = 0;
    let mut fr_digits: usize = 0;
    let frac_start = if dot_found {
        di + 1
    } else {
        len
    };
    let mut j2 = frac_start;
    while j2 < len
        invariant
            frac_start <= j2 <= len,
            len == t@.len(),
            di < len ==> frac_start == di + 1,
            di >= len ==> frac_start == len,
            frac == (if di < len {
                t@.subrange(di + 1, len as int)
            } else {
                Seq::<u8>::empty()
            }),
            dot_found ==> di < len,
            !dot_found ==> frac_start == len,
            forall|k: int| frac_start <= k < j2 ==> is_digit(#[trigger] t@[k]),
            fr_digits == if j2 - frac_start <= 6 {
                j2 - frac_start
            } else {
                6int
            },
            fr_acc == digits_val(t@.subrange(frac_start as int, frac_start + fr_digits)),
            0 <= fr_acc <= 999_999,
        decreases len - j2,
    {
        let b = t[j2];
        if b < 48 || b > 57 {
            proof {
                assert(!is_digit(frac[j2 - frac_start]));
            }
            return None;
        }
        if fr_digits < 6 {
            proof {
                assert(t@.subrange(frac_start as int, frac_start + fr_digits + 1).drop_last()
                    =~= t@.subrange(frac_start as int, frac_start + fr_digits));
                assert(t@.subrange(frac_start as int, frac_start + fr_digits + 1).last() == t@[
                    j2 as int]);
                assert(all_digits(t@.subrange(frac_start as int, frac_start + fr_digits)));
                lemma_digits_lt_pow(t@.subrange(frac_start as int, frac_start + fr_digits));
                reveal_with_fuel(pow10s, 8);
                assert(pow10s(0) == 1 && pow10s(1) == 10 && pow10s(2) == 100 && pow10s(3) == 1000
                    && pow10s(4) == 10000 && pow10s(5) == 100000);
            }
            fr_acc = fr_acc * 10 + (b - 48) as i64;
            fr_digits = fr_digits + 1;
        }
        j2 = j2 + 1;
    }
    proof {
        if dot_found {
            assert(all_digits(frac)) by {
                assert forall|k: int| 0 <= k < frac.len() implies is_digit(#[trigger] frac[k]) by {
                    assert(frac[k] == t@[k + di + 1]);
                }
            }
        } else {
            assert(all_digits(frac));
        }
    }

    // Scale the written fractional digits to six places.
    let frac_len = len - frac_start;
    let fr: i64 = if frac_len >= 6 {
        proof {
            if frac.len() > 6 {
                assert(frac.take(6) =~= t@.subrange(frac_start as int, frac_start + 6));
            } else {
                assert(frac =~= t@.subrange(frac_start as int, frac_start + 6));
            }
        }
        fr_acc
    } else {
        proof {
            assert(frac =~= t@.subrange(frac_start as int, frac_start + fr_digits));
        }
        match fr_digits {
            0 => fr_acc * 1_000_000,
            1 => fr_acc * 100_000,
            2 => fr_acc * 10_000,
            3 => fr_acc * 1_000,
            4 => fr_acc * 100,
            _ => fr_acc * 10,
        }
    };
    proof {
        assert(fr == frac_val6(frac));
        assert(0 <= fr <= 999_999) by {
            lemma_digits_lt_pow(frac.take(if frac.len() <= 6 {
                frac.len() as int
            } else {
                6
            }));
            if frac.len() <= 6 {
                assert(frac.take(frac.len() as int) =~= frac);
            }
            reveal_with_fuel(pow10s, 8);
            assert(pow10s(0) == 1 && pow10s(1) == 10 && pow10s(2) == 100 && pow10s(3) == 1000
                && pow10s(4) == 10000 && pow10s(5) == 100000 && pow10s(6) == 1000000);
        }
    }

    if pos == di && frac_len == 0 {
        // No digits at all ("+", "-", or a bare dot at the end).
        return None;
    }

    // The magnitude must fit the timestamp-and-coordinate range.
    let total: i128 = ip * 1_000_000 + fr as i128;
    if total > i64::MAX as i128 {
        return None;
    }
    proof {
        assert(ip <= ip * 1_000_000);
        assert(body.len() > 0);
        assert(intpart.len() > 0 || frac.len() > 0);
    }
    Some((neg, ip as i64, fr))
}

/// An integer part whose prefix already exceeds the range makes the token
/// invalid, digits or not.
proof fn lemma_ip_too_big(
    t: Seq<u8>,
    pos: int,
    j: int,
    di: int,
    len: int,
    body: Seq<u8>,
    intpart: Seq<u8>,
    frac: Seq<u8>,
)
    requires
        0 <= pos <= j < di <= len,
        len == t.len(),
        pos == (if t.len() > 0 && (t[0] == 43 || t[0] == 45) {
            1int
        } else {
            0int
        }),
        body == t.subrange(pos, len),
        intpart == body.take(di - pos),
        intpart == t.subrange(pos, di),
        frac == (if di < len {
            t.subrange(di + 1, len)
        } else {
            Seq::<u8>::empty()
        }),
        digits_val(t.subrange(pos, j)) > i64::MAX,
        first_byte(body, 46) == di - pos,
        frac == (if di - pos < body.len() {
            body.skip(di - pos + 1)
        } else {
            Seq::<u8>::empty()
        }),
    ensures
        parse_decimal(t) is None,
{
    if pos == 1 {
        assert(t.drop_first() =~= body);
    } else {
        assert(t =~= body);
    }
    if all_digits(intpart) && all_digits(frac) {
        assert(intpart.take(j - pos) =~= t.subrange(pos, j));
        lemma_digits_val_prefix(intpart, j - pos);
        assert(digits_val(intpart) > i64::MAX);
        lemma_digits_val_nonneg(intpart);
        assert(frac_val6(frac) >= 0) by {
            lemma_frac_val6_nonneg(frac);
        }
        assert(digits_val(intpart) <= digits_val(intpart) * 1_000_000);
    }
}

/// A fractional value in microunits is never negative.
proof fn lemma_frac_val6_nonneg(s: Seq<u8>)
    requires
        all_digits(s),
    ensures
        frac_val6(s) >= 0,
{
    if s.len() <= 6 {
        lemma_digits_val_nonneg(s);
    } else {
        assert(all_digits(s.take(6)));
        lemma_digits_val_nonneg(s.take(6));
    }
}


/// What chrono computes for a calendar date and time of day: its UTC epoch
/// timestamp in nanoseconds, when the fields name a valid instant that fits
/// a signed 64-bit nanosecond count.
pub uninterp spec fn calendar_epoch_ns(
    year: int,
    month: int,
    day: int,
    hour: int,
    minute: int,
    second: int,
    nanos: int,
) -> Option<i64>;

/// Relies on chrono's `NaiveDate::from_ymd_opt`, `NaiveDate::and_hms_nano_opt`
/// and `DateTime::timestamp_nanos_opt`: the UTC epoch timestamp in
/// nanoseconds of the given calendar date and time of day, `None` when the
/// fields name no valid date or time or the instant does not fit in 64-bit
/// nanoseconds. The result depends on the seven fields alone.
#[verifier::external_body]
fn epoch_ns_from_calendar(
    year: i32,
    month: u32,
    day: u32,
    hour: u32,
    minute: u32,
    second: u32,
    nanos: u32,
) -> (r: Option<i64>)
    ensures
        r == calendar_epoch_ns(
            year as int,
            month as int,
            day as int,
            hour as int,
            minute as int,
            second as int,
            nanos as int,
        ),
{
    match chrono::NaiveDate::from_ymd_opt(year, month, day) {
        Some(date) => match date.and_hms_nano_opt(hour, minute, second, nanos) {
            Some(dt) => dt.and_utc().timestamp_nanos_opt(),
            None => None,
        },
        None => None,
    }
}

/// The parsed token as its mathematical value.
pub open spec fn dv_of(v: (bool, i64, i64)) -> DecVal {
    DecVal { neg: v.0, ip: v.1 as int, fr: v.2 as int }
}

/// The parsed tokens as their mathematical values.
pub open spec fn vals_view(vs: Seq<(bool, i64, i64)>) -> Seq<DecVal> {
    vs.map_values(|v: (bool, i64, i64)| dv_of(v))
}

/// The epoch timestamp a line's date and time fields name, each field cast
/// with saturation as a float-to-integer conversion behaves.
pub open spec fn line_epoch(vals: Seq<DecVal>) -> Option<i64> {
    calendar_epoch_ns(
        clamp(dv_trunc(vals[1]), i32::MIN as int, i32::MAX as int),
        clamp(dv_trunc(vals[2]), 0, u32::MAX as int),
        clamp(dv_trunc(vals[3]), 0, u32::MAX as int),
        clamp(dv_trunc(vals[4]), 0, u32::MAX as int),
        clamp(dv_trunc(vals[5]), 0, u32::MAX as int),
        clamp(dv_trunc(vals[6]), 0, u32::MAX as int),
        clamp(dv_trunc(vals[7]), 0, u32::MAX as int),
    )
}

/// The record one feed line names, or nothing: the line's decimal tokens by
/// position, with the date fields turned into an epoch timestamp.
pub open spec fn line_record(b: Seq<u8>) -> Option<UalfData> {
    let vals = parsed_values(b);
    if vals.len() < 22 {
        None
    } else {
        match line_epoch(vals) {
            Some(e) => Some(
                (UalfData {
                    epoch_ns: e,
                    latitude: dv_micro(vals[8]) as i64,
                    longitude: dv_micro(vals[9]) as i64,
                    peak_current: clamp(dv_trunc(vals[10]), i16::MIN as int, i16::MAX as int) as i16,
                    cloud_indicator: dv_micro(vals[21]) != 0,
                }),
            ),
            None => None,
        }
    }
}

/// Truncate-and-saturate into i32, as casting the token's value would.
fn sat_i32(neg: bool, ip: i64) -> (r: i32)
    requires
        ip >= 0,
    ensures
        r as int == clamp(
            if neg {
                -(ip as int)
            } else {
                ip as int
            },
            i32::MIN as int,
            i32::MAX as int,
        ),
{
    let v: i64 = if neg {
        -ip
    } else {
        ip
    };
    if v < i32::MIN as i64 {
        i32::MIN
    } else if v > i32::MAX as i64 {
        i32::MAX
    } else {
        v as i32
    }
}

/// Truncate-and-saturate into u32, as casting the token's value would.
fn sat_u32(neg: bool, ip: i64) -> (r: u32)
    requires
        ip >= 0,
    ensures
        r as int == clamp(
            if neg {
                -(ip as int)
            } else {
                ip as int
            },
            0,
            u32::MAX as int,
        ),
{
    if neg && ip > 0 {
        0
    } else if ip > u32::MAX as i64 {
        u32::MAX
    } else {
        ip as u32
    }
}

/// Truncate-and-saturate into i16, as casting the token's value would.
fn sat_i16(neg: bool, ip: i64) -> (r: i16)
    requires
        ip >= 0,
    ensures
        r as int == clamp(
            if neg {
                -(ip as int)
            } else {
                ip as int
            },
            i16::MIN as int,
            i16::MAX as int,
        ),
{
    let v: i64 = if neg {
        -ip
    } else {
        ip
    };
    if v < i16::MIN as i64 {
        i16::MIN
    } else if v > i16::MAX as i64 {
        i16::MAX
    } else {
        v as i16
    }
}

/// The token's value in microunits, signed.
fn micro_value(v: (bool, i64, i64)) -> (r: i64)
    requires
        0 <= v.1,
        0 <= v.2,
        v.1 * 1_000_000 + v.2 <= i64::MAX,
    ensures
        r as int == dv_micro(dv_of(v)),
{
    let mag: i64 = v.1 * 1_000_000 + v.2;
    if v.0 {
        -mag
    } else {
        mag
    }
}

impl UalfData {
    /// Parse one line of the upstream feed. The line is split on spaces, each
    /// token that names a decimal number is kept, and the record is built
    /// from those numbers by position: fields 1 to 7 are year, month, day,
    /// hour, minute, second and nanoseconds (turned into an epoch timestamp),
    /// field 8 latitude, 9 longitude, 10 peak current and 21 the
    /// cloud-discharge indicator. A line with fewer than 22 numbers, or whose
    /// date fields name no valid instant, yields nothing.
    pub fn from_string(ualf_str: &str) -> (r: Option<UalfData>)
        ensures
            r == line_record(ualf_str.spec_bytes()),
    {
        UalfData::from_bytes(ualf_str.as_bytes())
    }

    /// The same parse, over the line's bytes.
    #[verifier::loop_isolation(false)]
    pub fn from_bytes(bytes: &[u8]) -> (r: Option<UalfData>)
        ensures
            r == line_record(bytes@),
    {
        let n = bytes.len();
        let ghost target = parsed_values(bytes@);
        let mut vals: Vec<(bool, i64, i64)> = Vec::new();
        let mut pos: usize = 0;
        let mut finished = false;
        proof {
            assert(bytes@.skip(0) =~= bytes@);
            assert(vals_view(vals@) =~= Seq::<DecVal>::empty());
            assert(vals_view(vals@) + parsed_values(bytes@) =~= parsed_values(bytes@));
        }
        while !finished
            invariant
                pos <= n,
                forall|k: int|
                    0 <= k < vals@.len() ==> 0 <= (#[trigger] vals@[k]).1 && 0 <= vals@[k].2
                        <= 999_999 && vals@[k].1 * 1_000_000 + vals@[k].2 <= i64::MAX,
                finished ==> vals_view(vals@) == target,
                !finished ==> vals_view(vals@) + parsed_values(bytes@.skip(pos as int)) == target,
            decreases n - pos + (if finished { 0int } else { 1int }),
        {
            let ghost suffix = bytes@.skip(pos as int);
            let mut sp = pos;
            let mut sp_found = false;
            while !sp_found && sp < n
                invariant
                    pos <= sp <= n,
                    forall|k: int| pos <= k < sp ==> bytes@[k] != 32,
                    sp_found ==> sp < n && bytes@[sp as int] == 32,
                decreases n - sp + (if sp_found { 0int } else { 1int }),
            {
                if bytes[sp] == 32 {
                    sp_found = true;
                } else {
                    sp = sp + 1;
                }
            }
            let ghost i = sp - pos as int;
            proof {
                assert forall|k: int| 0 <= k < i implies suffix[k] != 32 by {
                    assert(suffix[k] == bytes@[k + pos]);
                }
                if sp_found {
                    assert(suffix[i] == bytes@[sp as int]);
                }
                lemma_first_byte_is(suffix, 32, i);
                assert(suffix.take(i) =~= bytes@.subrange(pos as int, sp as int));
            }
            let token = &bytes[pos..sp];
            let ghost pre = vals_view(vals@);
            let parsed = parse_decimal_exec(token);
            match parsed {
                Some(v) => {
                    vals.push(v);
                    proof {
                        assert(vals_view(vals@) =~= pre.push(dv_of(v)));
                    }
                },
                None => {},
            }
            proof {
                let head: Seq<DecVal> = match parse_decimal(suffix.take(i)) {
                    Some(d) => seq![d],
                    None => Seq::empty(),
                };
                assert(vals_view(vals@) =~= pre + head);
            }
            if sp_found {
                pos = sp + 1;
                proof {
                    assert(i < suffix.len());
                    assert(suffix.skip(i + 1) =~= bytes@.skip(pos as int));
                    let head: Seq<DecVal> = match parse_decimal(suffix.take(i)) {
                        Some(d) => seq![d],
                        None => Seq::empty(),
                    };
                    assert(pre + head + parsed_values(bytes@.skip(pos as int)) =~= pre + (head
                        + parsed_values(suffix.skip(i + 1))));
                }
            } else {
                finished = true;
                proof {
                    assert(i == suffix.len());
                }
            }
        }
        if vals.len() < 22 {
            return None;
        }
        proof {
            assert(vals_view(vals@).len() == vals@.len());
        }
        let v1 = vals[1];
        let v2 = vals[2];
        let v3 = vals[3];
        let v4 = vals[4];
        let v5 = vals[5];
        let v6 = vals[6];
        let v7 = vals[7];
        let epoch = epoch_ns_from_calendar(
            sat_i32(v1.0, v1.1),
            sat_u32(v2.0, v2.1),
            sat_u32(v3.0, v3.1),
            sat_u32(v4.0, v4.1),
            sat_u32(v5.0, v5.1),
            sat_u32(v6.0, v6.1),
            sat_u32(v7.0, v7.1),
        );
        proof {
            assert(vals_view(vals@)[1] == dv_of(vals@[1]));
            assert(vals_view(vals@)[2] == dv_of(vals@[2]));
            assert(vals_view(vals@)[3] == dv_of(vals@[3]));
            assert(vals_view(vals@)[4] == dv_of(vals@[4]));
            assert(vals_view(vals@)[5] == dv_of(vals@[5]));
            assert(vals_view(vals@)[6] == dv_of(vals@[6]));
            assert(vals_view(vals@)[7] == dv_of(vals@[7]));
            assert(vals_view(vals@)[8] == dv_of(vals@[8]));
            assert(vals_view(vals@)[9] == dv_of(vals@[9]));
            assert(vals_view(vals@)[10] == dv_of(vals@[10]));
            assert(vals_view(vals@)[21] == dv_of(vals@[21]));
        }
        match epoch {
            Some(e) => {
                let v8 = vals[8];
                let v9 = vals[9];
                let v10 = vals[10];
                let v21 = vals[21];
                Some(
                    UalfData {
                        epoch_ns: e,
                        latitude: micro_value(v8),
                        longitude: micro_value(v9),
                        peak_current: sat_i16(v10.0, v10.1),
                        cloud_indicator: micro_value(v21) != 0,
                    },
                )
            },
            None => None,
        }
    }
}

} // verus!
