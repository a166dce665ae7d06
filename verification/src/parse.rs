//! Cell parsing: plain decimal numbers (with timestamp heuristics) and the
//! date/time format cascade.
//!
//! Numbers are read into fixed point (see [`crate::SCALE`]). Date and time
//! text is parsed by chrono behind a trusted wrapper; everything around the
//! call — the format cascade, the millisecond-to-seconds conversion, and
//! the timestamp range heuristics — is verified.

use vstd::prelude::*;
use vstd::string::StringSliceAdditionalSpecFns;

verus! {

/// ASCII decimal digit.
pub open spec fn is_digit(b: u8) -> bool {
    48 <= b <= 57
}

/// All bytes of `s` are decimal digits.
pub open spec fn all_digits(s: Seq<u8>) -> bool {
    forall|i: int| 0 <= i < s.len() ==> is_digit(#[trigger] s[i])
}

/// Value of a digit string, most significant first.
pub open spec fn digits_val(s: Seq<u8>) -> int
    decreases s.len(),
{
    if s.len() == 0 {
        0
    } else {
        digits_val(s.drop_last()) * 10 + (s.last() - 48)
    }
}

/// ASCII whitespace, as `str::trim` treats the common cases.
pub open spec fn is_space(b: u8) -> bool {
    b == 32 || b == 9 || b == 10 || b == 13
}

/// Largest whole-number magnitude the cell parser accepts.
pub const PARSE_INT_CAP: i64 = 0x400_0000_0000;

/// Largest fraction length (in digits) the cell parser accepts.
pub const PARSE_FRAC_CAP: usize = 12;

/// Power of ten (for fraction scaling).
pub open spec fn pow10(n: int) -> int
    decreases n,
{
    if n <= 0 {
        1
    } else {
        10 * pow10(n - 1)
    }
}

/// Index of the first dot of `s` at or after `i` (`s.len()` if none).
pub open spec fn dot_index(s: Seq<u8>, i: int) -> int
    decreases s.len() - i,
{
    if i < 0 || i >= s.len() {
        s.len() as int
    } else if s[i] == 46 {
        i
    } else {
        dot_index(s, i + 1)
    }
}

/// The fixed-point value a trimmed byte string denotes, if it is a plain
/// decimal number: an optional sign, then digits with at most one point,
/// at least one digit in all. The fraction is scaled into fixed point
/// rounding toward zero. Whole parts above [`PARSE_INT_CAP`] or fractions
/// longer than [`PARSE_FRAC_CAP`] are not accepted.
/// The digits-and-sign body of a cell: the text after an optional leading
/// sign.
pub open spec fn sign_body(s: Seq<u8>) -> Seq<u8> {
    if s.len() > 0 && (s[0] == 43 || s[0] == 45) {
        s.skip(1)
    } else {
        s
    }
}

/// The cell begins with a minus sign.
pub open spec fn sign_negative(s: Seq<u8>) -> bool {
    s.len() > 0 && s[0] == 45
}

/// The fixed-point value a sign-stripped body denotes; see
/// [`decimal_spec`].
pub open spec fn decimal_body_spec(body: Seq<u8>, negative: bool) -> Option<i64> {
    let dot = dot_index(body, 0);
    if !(exists|d: int| 0 <= d < body.len() && is_digit(#[trigger] body[d])) {
        None
    } else if dot < body.len() {
        if dot_index(body, dot + 1) < body.len() {
            None
        } else {
            let ip = body.take(dot);
            let fp = body.skip(dot + 1);
            if all_digits(ip) && all_digits(fp) && (ip.len() > 0 || fp.len() > 0)
                && digits_val(ip) <= PARSE_INT_CAP && fp.len() <= PARSE_FRAC_CAP {
                let mag = digits_val(ip) * (crate::SCALE as int) + digits_val(fp) * (
                crate::SCALE as int) / pow10(fp.len() as int);
                Some((if negative { -mag } else { mag }) as i64)
            } else {
                None
            }
        }
    } else {
        if all_digits(body) && digits_val(body) <= PARSE_INT_CAP {
            let mag = digits_val(body) * (crate::SCALE as int);
            Some((if negative { -mag } else { mag }) as i64)
        } else {
            None
        }
    }
}

pub open spec fn decimal_spec(s: Seq<u8>) -> Option<i64> {
    decimal_body_spec(sign_body(s), sign_negative(s))
}

/// Parse the digit run `bytes[lo..hi]`, capped.
fn parse_digits(bytes: &[u8], lo: usize, hi: usize) -> (r: Option<i64>)
    requires
        lo <= hi <= bytes@.len(),
    ensures
        match r {
            Some(v) => all_digits(bytes@.subrange(lo as int, hi as int)) && v as int
                == digits_val(bytes@.subrange(lo as int, hi as int)) && 0 <= v
                <= PARSE_INT_CAP,
            None => !(all_digits(bytes@.subrange(lo as int, hi as int)) && digits_val(
                bytes@.subrange(lo as int, hi as int)) <= PARSE_INT_CAP),
        },
{
    let mut acc: i64 = 0;
    let mut k: usize = lo;
    proof {
        assert(bytes@.subrange(lo as int, lo as int) =~= Seq::<u8>::empty());
    }
    while k < hi
        invariant
            lo <= k <= hi <= bytes@.len(),
            0 <= acc <= PARSE_INT_CAP,
            all_digits(bytes@.subrange(lo as int, k as int)),
            acc as int == digits_val(bytes@.subrange(lo as int, k as int)),
        decreases hi - k,
    {
        let b = bytes[k];
        if b < 48 || b > 57 {
            proof {
                assert(bytes@.subrange(lo as int, hi as int)[k - lo] == b);
            }
            return None;
        }
        if acc > (PARSE_INT_CAP - (b - 48) as i64) / 10 {
            proof {
                if all_digits(bytes@.subrange(lo as int, hi as int)) {
                    lemma_digits_val_grows(bytes@.subrange(lo as int, hi as int), k + 1
                        - lo);
                    assert(bytes@.subrange(lo as int, hi as int).take(k + 1 - lo)
                        =~= bytes@.subrange(lo as int, k + 1 as int));
                    assert(bytes@.subrange(lo as int, k + 1 as int).drop_last()
                        =~= bytes@.subrange(lo as int, k as int));
                    vstd::arithmetic::div_mod::lemma_fundamental_div_mod(
                        (PARSE_INT_CAP - (b - 48)) as int, 10);
                }
            }
            return None;
        }
        acc = acc * 10 + (b - 48) as i64;
        k = k + 1;
        proof {
            assert(bytes@.subrange(lo as int, k as int).drop_last()
                =~= bytes@.subrange(lo as int, k - 1));
        }
    }
    Some(acc)
}

/// A digit prefix only grows the value.
proof fn lemma_digits_val_grows(s: Seq<u8>, k: int)
    requires
        0 <= k <= s.len(),
        all_digits(s),
    ensures
        digits_val(s.take(k)) <= digits_val(s),
    decreases s.len() - k,
{
    assert forall|i: int| 0 <= i < s.take(k).len() implies is_digit(
        #[trigger] s.take(k)[i]) by {
        assert(s.take(k)[i] == s[i]);
    }
    if k < s.len() {
        lemma_digits_val_grows(s, k + 1);
        lemma_digits_val_nonneg(s.take(k));
        assert(s.take(k + 1).drop_last() =~= s.take(k));
        assert(is_digit(s[k]));
        assert(s.take(k + 1).last() == s[k]);
        assert(digits_val(s.take(k)) * 10 + (s[k] - 48) >= digits_val(s.take(k)))
            by (nonlinear_arith)
            requires digits_val(s.take(k)) >= 0, s[k] >= 48;
    } else {
        assert(s.take(k) =~= s);
    }
}

proof fn lemma_digits_val_nonneg(s: Seq<u8>)
    requires
        all_digits(s),
    ensures
        digits_val(s) >= 0,
    decreases s.len(),
{
    if s.len() > 0 {
        assert(is_digit(s[s.len() - 1]));
        assert forall|i: int| 0 <= i < s.drop_last().len() implies is_digit(
            #[trigger] s.drop_last()[i]) by {
            assert(s.drop_last()[i] == s[i]);
        }
        lemma_digits_val_nonneg(s.drop_last());
        assert(digits_val(s.drop_last()) * 10 >= 0) by (nonlinear_arith)
            requires digits_val(s.drop_last()) >= 0;
    }
}

/// The value of a digit string is below ten to its length.
proof fn lemma_digits_val_upper(s: Seq<u8>)
    requires
        all_digits(s),
    ensures
        digits_val(s) < pow10(s.len() as int),
    decreases s.len(),
{
    if s.len() == 0 {
    } else {
        assert(is_digit(s[s.len() - 1]));
        assert forall|i: int| 0 <= i < s.drop_last().len() implies is_digit(
            #[trigger] s.drop_last()[i]) by {
            assert(s.drop_last()[i] == s[i]);
        }
        lemma_digits_val_upper(s.drop_last());
        assert(digits_val(s.drop_last()) * 10 + (s.last() - 48) < 10 * pow10(
            s.len() - 1)) by (nonlinear_arith)
            requires
                digits_val(s.drop_last()) < pow10(s.len() - 1),
                s.last() - 48 <= 9;
    }
}

/// Ten to a small power.
fn pow10_exec(n: usize) -> (r: i64)
    requires
        n <= PARSE_FRAC_CAP,
    ensures
        r as int == pow10(n as int),
        1 <= r <= 0x0de0_b6b3_a764_0000,
{
    let mut r: i64 = 1;
    let mut k: usize = 0;
    proof {
        lemma_pow10_bound(n as int);
    }
    while k < n
        invariant
            0 <= k <= n <= PARSE_FRAC_CAP,
            r as int == pow10(k as int),
            1 <= r as int <= pow10(n as int),
            pow10(n as int) <= 0x0de0_b6b3_a764_0000,
        decreases n - k,
    {
        proof {
            lemma_pow10_mono(k + 1 as int, n as int);
        }
        r = r * 10;
        k = k + 1;
    }
    r
}

proof fn lemma_pow10_bound(n: int)
    requires
        0 <= n <= 18,
    ensures
        pow10(n) <= 0x0de0_b6b3_a764_0000,
        1 <= pow10(n),
{
    lemma_pow10_mono(n, 18);
    assert(pow10(18) == 0x0de0_b6b3_a764_0000) by {
        reveal_with_fuel(pow10, 20);
    }
    lemma_pow10_pos(n);
}

proof fn lemma_pow10_pos(n: int)
    ensures
        pow10(n) >= 1,
    decreases n,
{
    if n > 0 {
        lemma_pow10_pos(n - 1);
    }
}

proof fn lemma_pow10_mono(a: int, b: int)
    requires
        a <= b,
    ensures
        pow10(a) <= pow10(b),
    decreases b - a,
{
    if a < b {
        lemma_pow10_mono(a, b - 1);
        lemma_pow10_pos(b - 1);
    }
}

/// Parse a trimmed byte string as a plain decimal number into fixed
/// point; see [`decimal_spec`].
proof fn lemma_dot_index_at(s: Seq<u8>, i: int, u: int)
    requires
        0 <= i <= u < s.len(),
        s[u] == 46,
        forall|d: int| i <= d < u ==> s[d] != 46,
    ensures
        dot_index(s, i) == u,
    decreases u - i,
{
    if i < u {
        lemma_dot_index_at(s, i + 1, u);
    }
}

proof fn lemma_dot_index_none(s: Seq<u8>, i: int)
    requires
        0 <= i,
        forall|d: int| i <= d < s.len() ==> s[d] != 46,
    ensures
        dot_index(s, i) == s.len(),
    decreases s.len() - i,
{
    if i < s.len() {
        lemma_dot_index_none(s, i + 1);
    }
}

proof fn lemma_dot_index_le(s: Seq<u8>, i: int, u: int)
    requires
        0 <= i <= u < s.len(),
        s[u] == 46,
    ensures
        i <= dot_index(s, i) <= u,
    decreases u - i,
{
    if i < u && s[i] != 46 {
        lemma_dot_index_le(s, i + 1, u);
    }
}

/// Parse the single-dot form `bytes[start..dot] "." bytes[dot+1..]`.
#[verifier::rlimit(100)]
fn parse_dotted(bytes: &[u8], start: usize, negative: bool, dot: usize) -> (r: Option<i64>)
    requires
        start <= 1,
        (start == 1) == (bytes@.len() > 0 && (bytes@[0] == 43 || bytes@[0] == 45)),
        negative == (bytes@.len() > 0 && bytes@[0] == 45),
        start <= dot < bytes@.len(),
        bytes@[dot as int] == 46,
        forall|d: int| start as int <= d < dot as int ==> bytes@[d] != 46,
        forall|d: int| dot < d < bytes@.len() ==> bytes@[d] != 46,
        exists|d: int| start as int <= d < bytes@.len() && is_digit(#[trigger] bytes@[d]),
    ensures
        r == decimal_spec(bytes@),
{
    let n = bytes.len();
    let ghost body = sign_body(bytes@);
    proof {
        assert(body =~= bytes@.subrange(start as int, bytes@.len() as int));
        let hd = choose|d: int| start as int <= d < bytes@.len() && is_digit(
            #[trigger] bytes@[d]);
        assert(is_digit(body[hd - start]));
        assert(exists|d: int| 0 <= d < body.len() && is_digit(#[trigger] body[d]));
        assert(body[dot - start] == 46);
        assert forall|d: int| 0 <= d < dot - start implies body[d] != 46 by {
            assert(body[d] == bytes@[d + start]);
        }
        lemma_dot_index_at(body, 0, dot - start);
        assert forall|d: int| dot - start < d < body.len() implies body[d] != 46 by {
            assert(body[d] == bytes@[d + start]);
        }
        lemma_dot_index_none(body, dot - start + 1);
    }
    let ghost gdot: int = dot - start;
    let ip = parse_digits(bytes, start, dot);
    let fp = parse_digits(bytes, dot + 1, n);
    proof {
        assert(body.take(gdot) =~= bytes@.subrange(start as int, dot as int));
        assert(body.skip(gdot + 1) =~= bytes@.subrange(dot + 1, n as int));
    }
    proof {
        assert(dot_index(body, 0) == dot - start);
        assert(dot_index(body, (dot - start) + 1) == body.len());
        assert(exists|d: int| 0 <= d < body.len() && is_digit(#[trigger] body[d]));
        assert(body.take(dot - start) =~= bytes@.subrange(start as int, dot as int));
        assert(body.skip(dot - start + 1) =~= bytes@.subrange(dot + 1, n as int));
    }
    match (ip, fp) {
        (Some(iv), Some(fv)) => {
            if n - dot - 1 > PARSE_FRAC_CAP {
                proof {
                    assert(body.skip(dot - start + 1).len() > PARSE_FRAC_CAP);
                    assert(decimal_spec(bytes@) is None);
                }
                return None;
            }
            if start == dot && dot + 1 == n {
                proof {
                    assert(body.take(dot - start).len() == 0);
                    assert(body.skip(dot - start + 1).len() == 0);
                    assert(decimal_body_spec(body, negative) is None);
                }
                return None;
            }
            let p10 = pow10_exec(n - dot - 1);
            proof {
                assert(0 <= (fv as int) * (crate::SCALE as int)
                    <= 0x400_0000_0000_0000_0000_0000int) by (nonlinear_arith)
                    requires 0 <= fv as int <= 0x400_0000_0000int,
                        0 < crate::SCALE as int <= 0x10_0000int;
            }
            let frac_scaled: i64 = (((fv as i128) * (crate::SCALE as i128)) / (
            p10 as i128)) as i64;
            proof {
                vstd::arithmetic::div_mod::lemma_div_pos_is_pos(
                    (fv as int) * (crate::SCALE as int), p10 as int);
                lemma_digits_val_upper(bytes@.subrange(dot + 1, n as int));
                assert((fv as int) * (crate::SCALE as int) < (p10 as int) * (
                crate::SCALE as int)) by (nonlinear_arith)
                    requires
                        0 <= fv as int,
                        (fv as int) < p10 as int,
                        0 < crate::SCALE as int;
                vstd::arithmetic::div_mod::lemma_multiply_divide_lt(
                    (fv as int) * (crate::SCALE as int), p10 as int, crate::SCALE as int);
                assert(0 <= (iv as int) * (crate::SCALE as int)
                    <= 0x400_0000_0000_0000_0000int) by (nonlinear_arith)
                    requires 0 <= iv as int <= 0x400_0000_0000int,
                        0 < crate::SCALE as int <= 0x10_0000int;
            }
            let mag: i64 = iv * crate::SCALE + frac_scaled;
            if negative {
                Some(-mag)
            } else {
                Some(mag)
            }
        },
        _ => {
            proof {
                assert(!(all_digits(body.take(dot - start)) && digits_val(body.take(
                    dot - start)) <= PARSE_INT_CAP) || !(all_digits(body.skip(dot - start
                    + 1)) && digits_val(body.skip(dot - start + 1)) <= PARSE_INT_CAP));
                if !(all_digits(body.take(dot - start)) && digits_val(body.take(dot
                    - start)) <= PARSE_INT_CAP) {
                    assert(decimal_body_spec(body, negative) is None);
                } else {
                    if !all_digits(body.skip(dot - start + 1)) {
                        assert(decimal_body_spec(body, negative) is None);
                    } else {
                        lemma_digits_val_upper(body.skip(dot - start + 1));
                        if body.skip(dot - start + 1).len() <= PARSE_FRAC_CAP {
                            lemma_pow10_mono(body.skip(dot - start + 1).len() as int, 12);
                            assert(pow10(12) <= 0x400_0000_0000int) by {
                                reveal_with_fuel(pow10, 14);
                            }
                            assert(digits_val(body.skip(dot - start + 1))
                                <= PARSE_INT_CAP);
                            assert(false);
                        }
                        assert(decimal_body_spec(body, negative) is None);
                    }
                }
            }
            None
        },
    }
}

#[verifier::rlimit(100)]
pub fn parse_decimal(bytes: &[u8]) -> (r: Option<i64>)
    ensures
        r == decimal_spec(bytes@),
{
    let n = bytes.len();
    let (start, negative): (usize, bool) = if n > 0 && (bytes[0] == 43 || bytes[0] == 45) {
        (1, bytes[0] == 45)
    } else {
        (0, false)
    };
    let ghost body = sign_body(bytes@);
    proof {
        assert(body =~= bytes@.subrange(start as int, bytes@.len() as int));
    }
    // find a dot and check for digits
    let mut dot: usize = n;
    let mut has_digit = false;
    let mut second_dot = false;
    let mut k: usize = start;
    while k < n
        invariant
            start <= k <= n,
            n == bytes@.len(),
            body == bytes@.subrange(start as int, bytes@.len() as int),
            dot == n || (start <= dot < k && bytes@[dot as int] == 46),
            dot == n ==> forall|d: int| start as int <= d < k as int ==> bytes@[d] != 46,
            dot < n ==> forall|d: int| start as int <= d < dot as int ==> bytes@[d] != 46,
            has_digit == exists|d: int| start as int <= d < k as int && is_digit(
                #[trigger] bytes@[d]),
            second_dot == (dot < n && exists|d: int| dot < d < k as int
                && #[trigger] bytes@[d] == 46),
        decreases n - k,
    {
        let b = bytes[k];
        let ghost gk: int = k as int;
        let ghost old_dot: int = dot as int;
        if b == 46 {
            if dot == n {
                dot = k;
            } else {
                second_dot = true;
                proof {
                    assert(old_dot < gk < gk + 1 && bytes@[gk] == 46);
                }
            }
        } else if b >= 48 && b <= 57 {
            has_digit = true;
            proof {
                assert(is_digit(bytes@[gk]));
            }
        }
        k = k + 1;
        proof {
            if has_digit && !(exists|d: int| start as int <= d < gk
                && is_digit(#[trigger] bytes@[d])) && is_digit(bytes@[gk]) {
                assert(start as int <= gk < k as int && is_digit(bytes@[gk]));
            }
        }
    }
    if !has_digit {
        proof {
            assert forall|d: int| 0 <= d < body.len() implies !is_digit(
                #[trigger] body[d]) by {
                assert(body[d] == bytes@[d + start]);
            }
            assert(!(exists|d: int| 0 <= d < body.len() && is_digit(#[trigger] body[d])));
        }
        return None;
    }
    proof {
        let hd = choose|d: int| start as int <= d < n as int && is_digit(
            #[trigger] bytes@[d]);
        assert(is_digit(body[hd - start]));
        assert(exists|d: int| 0 <= d < body.len() && is_digit(#[trigger] body[d]));
    }
    if dot < n {
        if second_dot {
            proof {
                assert(exists|d: int| dot < d < bytes@.len() as int && #[trigger] bytes@[d]
                    == 46);
                let d2 = choose|d: int| dot < d < bytes@.len() as int && #[trigger] bytes@[d]
                    == 46;
                assert(body[dot - start] == 46);
                assert(body[d2 - start] == 46);
                assert forall|d: int| 0 <= d < dot - start implies body[d] != 46 by {
                    assert(body[d] == bytes@[d + start]);
                }
                lemma_dot_index_at(body, 0, dot - start);
                lemma_dot_index_le(body, dot - start + 1, d2 - start);
            }
            return None;
        }
        parse_dotted(bytes, start, negative, dot)
    } else {
        proof {
            assert forall|d: int| 0 <= d < body.len() implies body[d] != 46 by {
                assert(body[d] == bytes@[d + start]);
            }
            lemma_dot_index_none(body, 0);
        }
        match parse_digits(bytes, start, n) {
            Some(iv) => {
                proof {
                    assert(body =~= bytes@.subrange(start as int, n as int));
                    assert(0 <= (iv as int) * (crate::SCALE as int)
                        <= 0x400_0000_0000_0000_0000int) by (nonlinear_arith)
                        requires 0 <= iv as int <= 0x400_0000_0000int,
                            0 < crate::SCALE as int <= 0x10_0000int;
                }
                let mag: i64 = iv * crate::SCALE;
                if negative {
                    Some(-mag)
                } else {
                    Some(mag)
                }
            },
            None => None,
        }
    }
}

/// What chrono's datetime parser returns for a (trimmed) text and format,
/// as Unix milliseconds: a pure function of the two strings.
pub uninterp spec fn chrono_parsed_millis(s: Seq<char>, fmt: Seq<char>) -> Option<i64>;

/// Relies on `str::trim` and on chrono's `NaiveDateTime::parse_from_str`
/// (with `and_utc` and `timestamp_millis` reading the result as Unix
/// milliseconds): the outcome depends on the text and format alone.
#[verifier::external_body]
fn parse_datetime_millis(s: &str, fmt: &str) -> (r: Option<i64>)
    ensures
        r == chrono_parsed_millis(s@, fmt@),
{
    match chrono::NaiveDateTime::parse_from_str(s.trim(), fmt) {
        Ok(dt) => Some(dt.and_utc().timestamp_millis()),
        Err(_) => None,
    }
}

/// The date/time formats the cascade tries, in order: ISO 8601 forms with
/// a `T` separator first, then the common spaced and slashed forms.
pub open spec fn format_at(i: int) -> Seq<char> {
    if i == 0 {
        "%Y-%m-%dT%H:%M:%S%.fZ"@
    } else if i == 1 {
        "%Y-%m-%dT%H:%M:%SZ"@
    } else if i == 2 {
        "%Y-%m-%dT%H:%M:%S%.f"@
    } else if i == 3 {
        "%Y-%m-%dT%H:%M:%S"@
    } else if i == 4 {
        "%Y-%m-%dT%H:%M"@
    } else if i == 5 {
        "%Y-%m-%d %H:%M:%S%.f"@
    } else if i == 6 {
        "%Y-%m-%d %H:%M:%S"@
    } else if i == 7 {
        "%Y-%m-%d %H:%M"@
    } else if i == 8 {
        "%Y-%m-%d"@
    } else if i == 9 {
        "%Y/%m/%d %H:%M:%S"@
    } else if i == 10 {
        "%Y/%m/%d"@
    } else if i == 11 {
        "%d/%m/%Y %H:%M:%S"@
    } else if i == 12 {
        "%d/%m/%Y"@
    } else if i == 13 {
        "%m/%d/%Y %H:%M:%S"@
    } else if i == 14 {
        "%m/%d/%Y"@
    } else if i == 15 {
        "%d-%m-%Y %H:%M:%S"@
    } else if i == 16 {
        "%d-%m-%Y"@
    } else if i == 17 {
        "%b %d, %Y %H:%M:%S"@
    } else if i == 18 {
        "%b %d, %Y"@
    } else if i == 19 {
        "%d %b %Y %H:%M:%S"@
    } else {
        "%d %b %Y"@
    }
}

/// Number of formats in the cascade.
pub const FORMAT_COUNT: usize = 21;

/// The format string at one cascade position.
fn format_str(i: usize) -> (r: &'static str)
    requires
        i < FORMAT_COUNT,
    ensures
        r@ == format_at(i as int),
{
    match i {
        0 => "%Y-%m-%dT%H:%M:%S%.fZ",
        1 => "%Y-%m-%dT%H:%M:%SZ",
        2 => "%Y-%m-%dT%H:%M:%S%.f",
        3 => "%Y-%m-%dT%H:%M:%S",
        4 => "%Y-%m-%dT%H:%M",
        5 => "%Y-%m-%d %H:%M:%S%.f",
        6 => "%Y-%m-%d %H:%M:%S",
        7 => "%Y-%m-%d %H:%M",
        8 => "%Y-%m-%d",
        9 => "%Y/%m/%d %H:%M:%S",
        10 => "%Y/%m/%d",
        11 => "%d/%m/%Y %H:%M:%S",
        12 => "%d/%m/%Y",
        13 => "%m/%d/%Y %H:%M:%S",
        14 => "%m/%d/%Y",
        15 => "%d-%m-%Y %H:%M:%S",
        16 => "%d-%m-%Y",
        17 => "%b %d, %Y %H:%M:%S",
        18 => "%b %d, %Y",
        19 => "%d %b %Y %H:%M:%S",
        _ => "%d %b %Y",
    }
}

/// The whitespace-trimmed byte range of a cell.
pub open spec fn trimmed_spec(b: Seq<u8>) -> Seq<u8> {
    if trim_start(b, 0) <= trim_end(b) {
        b.subrange(trim_start(b, 0), trim_end(b))
    } else {
        Seq::empty()
    }
}

/// First non-whitespace index at or after `i`.
pub open spec fn trim_start(b: Seq<u8>, i: int) -> int
    decreases b.len() - i,
{
    if i < 0 || i >= b.len() {
        b.len() as int
    } else if is_space(b[i]) {
        trim_start(b, i + 1)
    } else {
        i
    }
}

/// One past the last non-whitespace index.
pub open spec fn trim_end(b: Seq<u8>) -> int
    decreases b.len(),
{
    if b.len() == 0 {
        0
    } else if is_space(b.last()) {
        trim_end(b.drop_last())
    } else {
        b.len() as int
    }
}

/// Unix-seconds fixed-point value of a parsed millisecond timestamp, when
/// it fits the value bound.
pub open spec fn millis_to_fixed(ms: int) -> Option<i64> {
    let fp = ms * (crate::SCALE as int) / 1000;
    if -0x8_0000_0000_0000 <= fp <= 0x8_0000_0000_0000 {
        Some(fp as i64)
    } else {
        None
    }
}

/// Timestamp-range classification of a plain numeric cell (fixed point):
/// values that look like Unix seconds between 2000 and 2038 pass through
/// flagged as timestamps; values in the corresponding millisecond range
/// are converted to seconds and flagged; anything else is a plain number.
pub open spec fn classify_numeric(v: i64) -> (i64, bool) {
    if 946684800 * (crate::SCALE as int) <= v <= 2147483647 * (crate::SCALE as int) {
        (v, true)
    } else if 946684800000 * (crate::SCALE as int) <= v <= 2147483647000 * (
    crate::SCALE as int) {
        ((v as int / 1000) as i64, true)
    } else {
        (v, false)
    }
}

/// The compact datetime shape: eight date digits, whitespace, six time
/// digits (at least fifteen bytes in all).
pub open spec fn compact_shape(t: Seq<u8>) -> bool {
    &&& t.len() >= 15
    &&& all_digits(t.take(8))
    &&& all_digits(t.skip(t.len() - 6))
    &&& forall|i: int| 8 <= i < t.len() - 6 ==> is_space(#[trigger] t[i])
}

/// A compact datetime, rewritten into the dashed-and-colon form the
/// parser's format string describes.
pub open spec fn compact_format(t: Seq<u8>) -> Seq<char> {
    let u = t.skip(t.len() - 6);
    seq![
        crate::error::digit_char(t[0] - 48),
        crate::error::digit_char(t[1] - 48),
        crate::error::digit_char(t[2] - 48),
        crate::error::digit_char(t[3] - 48),
        '-',
        crate::error::digit_char(t[4] - 48),
        crate::error::digit_char(t[5] - 48),
        '-',
        crate::error::digit_char(t[6] - 48),
        crate::error::digit_char(t[7] - 48),
        ' ',
        crate::error::digit_char(u[0] - 48),
        crate::error::digit_char(u[1] - 48),
        ':',
        crate::error::digit_char(u[2] - 48),
        crate::error::digit_char(u[3] - 48),
        ':',
        crate::error::digit_char(u[4] - 48),
        crate::error::digit_char(u[5] - 48),
    ]
}

/// The compact path's reading of a trimmed cell, when it applies: the
/// rewritten text handed to the datetime parser, converted to
/// representable fixed-point seconds.
pub open spec fn compact_value(t: Seq<u8>) -> Option<i64> {
    if compact_shape(t) && chrono_parsed_millis(compact_format(t),
        "%Y-%m-%d %H:%M:%S"@) is Some {
        millis_to_fixed(chrono_parsed_millis(compact_format(t),
            "%Y-%m-%d %H:%M:%S"@).unwrap() as int)
    } else {
        None
    }
}

/// Result of the format cascade from position `i` on: the first format
/// whose chrono parse yields a representable timestamp wins.
pub open spec fn cascade_from(sc: Seq<char>, i: int) -> (Option<i64>, bool)
    decreases FORMAT_COUNT - i,
{
    if i < 0 || i >= FORMAT_COUNT as int {
        (None::<i64>, false)
    } else if chrono_parsed_millis(sc, format_at(i)) is Some && millis_to_fixed(
        chrono_parsed_millis(sc, format_at(i)).unwrap() as int) is Some {
        (millis_to_fixed(chrono_parsed_millis(sc, format_at(i)).unwrap() as int), true)
    } else {
        cascade_from(sc, i + 1)
    }
}

/// What one cell denotes: a classified plain decimal when the trimmed
/// bytes parse as one, else the compact datetime form, else the first hit
/// of the date format cascade.
pub open spec fn parsed_cell(sb: Seq<u8>, sc: Seq<char>) -> (Option<i64>, bool) {
    if decimal_spec(trimmed_spec(sb)) is Some {
        let c = classify_numeric(decimal_spec(trimmed_spec(sb)).unwrap());
        (Some(c.0), c.1)
    } else if compact_value(trimmed_spec(sb)) is Some {
        (compact_value(trimmed_spec(sb)), true)
    } else {
        cascade_from(sc, 0)
    }
}

/// Whether trimmed bytes have the compact datetime shape.
fn is_compact_shape(t: &Vec<u8>) -> (r: bool)
    ensures
        r == compact_shape(t@),
{
    let n = t.len();
    if n < 15 {
        return false;
    }
    let mut k: usize = 0;
    while k < 8
        invariant
            0 <= k <= 8,
            n == t@.len(),
            n >= 15,
            forall|i: int| 0 <= i < k as int ==> is_digit(#[trigger] t@[i]),
        decreases 8 - k,
    {
        let b = t[k];
        if b < 48 || b > 57 {
            proof {
                assert(!is_digit(t@[k as int]));
                assert(t@.take(8)[k as int] == t@[k as int]);
                assert(!all_digits(t@.take(8)));
            }
            return false;
        }
        k = k + 1;
    }
    let mut k2: usize = 8;
    while k2 < n - 6
        invariant
            8 <= k2 <= n - 6,
            n == t@.len(),
            n >= 15,
            forall|i: int| 8 <= i < k2 as int ==> is_space(#[trigger] t@[i]),
        decreases n - 6 - k2,
    {
        let b = t[k2];
        if !(b == 32 || b == 9 || b == 10 || b == 13) {
            proof {
                assert(!is_space(t@[k2 as int]));
            }
            return false;
        }
        k2 = k2 + 1;
    }
    let mut k3: usize = n - 6;
    while k3 < n
        invariant
            n - 6 <= k3 <= n,
            n == t@.len(),
            n >= 15,
            forall|i: int| n - 6 <= i < k3 as int ==> is_digit(#[trigger] t@[i]),
        decreases n - k3,
    {
        let b = t[k3];
        if b < 48 || b > 57 {
            proof {
                assert(!is_digit(t@[k3 as int]));
                assert(t@.skip(t@.len() - 6)[k3 - (n - 6)] == t@[k3 as int]);
                assert(!all_digits(t@.skip(t@.len() - 6)));
            }
            return false;
        }
        k3 = k3 + 1;
    }
    proof {
        assert forall|i: int| 0 <= i < t@.take(8).len() implies is_digit(
            #[trigger] t@.take(8)[i]) by {
            assert(t@.take(8)[i] == t@[i]);
        }
        assert forall|i: int| 0 <= i < t@.skip(t@.len() - 6).len() implies is_digit(
            #[trigger] t@.skip(t@.len() - 6)[i]) by {
            assert(t@.skip(t@.len() - 6)[i] == t@[i + t@.len() - 6]);
        }
    }
    true
}

/// Rewrite a compact datetime into the dashed-and-colon form.
fn compact_reformat(t: &Vec<u8>) -> (r: String)
    requires
        compact_shape(t@),
    ensures
        r@ == compact_format(t@),
{
    proof {
        assert forall|i: int| 0 <= i < 8 implies is_digit(#[trigger] t@[i]) by {
            assert(t@.take(8)[i] == t@[i]);
        }
        assert forall|i: int| t@.len() - 6 <= i < t@.len() implies is_digit(
            #[trigger] t@[i]) by {
            assert(t@.skip(t@.len() - 6)[i - (t@.len() - 6)] == t@[i]);
        }
        reveal_strlit("-");
        reveal_strlit(" ");
        reveal_strlit(":");
    }
    let n = t.len();
    let mut out = String::new();
    out.append(crate::error::digit_str((t[0] - 48) as u64));
    out.append(crate::error::digit_str((t[1] - 48) as u64));
    out.append(crate::error::digit_str((t[2] - 48) as u64));
    out.append(crate::error::digit_str((t[3] - 48) as u64));
    out.append("-");
    out.append(crate::error::digit_str((t[4] - 48) as u64));
    out.append(crate::error::digit_str((t[5] - 48) as u64));
    out.append("-");
    out.append(crate::error::digit_str((t[6] - 48) as u64));
    out.append(crate::error::digit_str((t[7] - 48) as u64));
    out.append(" ");
    out.append(crate::error::digit_str((t[n - 6] - 48) as u64));
    out.append(crate::error::digit_str((t[n - 5] - 48) as u64));
    out.append(":");
    out.append(crate::error::digit_str((t[n - 4] - 48) as u64));
    out.append(crate::error::digit_str((t[n - 3] - 48) as u64));
    out.append(":");
    out.append(crate::error::digit_str((t[n - 2] - 48) as u64));
    out.append(crate::error::digit_str((t[n - 1] - 48) as u64));
    proof {
        assert(t@.skip(t@.len() - 6)[0] == t@[t@.len() - 6]);
        assert(t@.skip(t@.len() - 6)[1] == t@[t@.len() - 5]);
        assert(t@.skip(t@.len() - 6)[2] == t@[t@.len() - 4]);
        assert(t@.skip(t@.len() - 6)[3] == t@[t@.len() - 3]);
        assert(t@.skip(t@.len() - 6)[4] == t@[t@.len() - 2]);
        assert(t@.skip(t@.len() - 6)[5] == t@[t@.len() - 1]);
        assert(out@ =~= compact_format(t@));
    }
    out
}

/// Parse one cell: `(value, is_timestamp)`.
///
/// A plain decimal (after byte-level whitespace trimming) is classified by
/// the timestamp heuristics of [`classify_numeric`]. Anything else runs
/// the date/time format cascade: the first format chrono accepts gives a
/// Unix-seconds fixed-point value (timestamps outside the representable
/// range are treated as unparseable). Cells nothing accepts give
/// `(None, false)`.
/// The whitespace-trimmed copy of a cell's bytes.
fn trimmed_bytes(s: &str) -> (t: Vec<u8>)
    ensures
        t@ == trimmed_spec(s.spec_bytes()),
{
    let bytes = s.as_bytes();
    let n = bytes.len();
    let mut a: usize = 0;
    while a < n && (bytes[a] == 32 || bytes[a] == 9 || bytes[a] == 10 || bytes[a] == 13)
        invariant
            0 <= a <= n,
            n == s.spec_bytes().len(),
            bytes@ == s.spec_bytes(),
            trim_start(bytes@, 0) == trim_start(bytes@, a as int),
        decreases n - a,
    {
        a = a + 1;
    }
    proof {
        assert(trim_start(bytes@, a as int) == a as int);
        assert(trim_start(bytes@, 0) == a as int);
    }
    let mut b: usize = n;
    proof {
        assert(bytes@.take(n as int) =~= bytes@);
    }
    while b > a && (bytes[b - 1] == 32 || bytes[b - 1] == 9 || bytes[b - 1] == 10
        || bytes[b - 1] == 13)
        invariant
            a <= b <= n,
            n == s.spec_bytes().len(),
            bytes@ == s.spec_bytes(),
            trim_start(bytes@, 0) == a as int,
            a < n ==> !is_space(bytes@[a as int]),
            a < n ==> b > a,
            trim_end(bytes@) == trim_end(bytes@.take(b as int)),
        decreases b,
    {
        b = b - 1;
        proof {
            assert(bytes@.take(b + 1).drop_last() =~= bytes@.take(b as int));
            if a < n && b == a {
                assert(is_space(bytes@[a as int]));
                assert(false);
            }
        }
    }
    proof {
        if a < b {
            assert(bytes@.take(b as int).last() == bytes@[b - 1]);
            assert(!is_space(bytes@.take(b as int).last()));
            assert(trim_end(bytes@.take(b as int)) == b as int);
            assert(trim_end(bytes@) == b as int);
        } else {
            assert(a == b);
            if a < n {
                assert(!is_space(bytes@[a as int]));
                assert(false);
            }
            assert(a as int == n as int);
            lemma_trim_end_le(bytes@);
            assert(trimmed_spec(bytes@).len() == 0);
        }
    }
    let mut t: Vec<u8> = Vec::new();
    let mut k: usize = a;
    while k < b
        invariant
            a <= k <= b <= n,
            n == bytes@.len(),
            bytes@ == s.spec_bytes(),
            t@ =~= bytes@.subrange(a as int, k as int),
        decreases b - k,
    {
        t.push(bytes[k]);
        k = k + 1;
        proof {
            assert(t@ =~= bytes@.subrange(a as int, k as int));
        }
    }
    proof {
        assert(t@ =~= trimmed_spec(s.spec_bytes()));
    }
    t
}

/// Classify a parsed numeric cell; see [`classify_numeric`].
fn classify_exec(v: i64) -> (r: (i64, bool))
    ensures
        r == classify_numeric(v),
{
    if 946684800 * crate::SCALE <= v && v <= 2147483647 * crate::SCALE {
        (v, true)
    } else if 946684800000 * crate::SCALE <= v && v <= 2147483647000 * crate::SCALE {
        (crate::div_floor(v, 1000), true)
    } else {
        (v, false)
    }
}

#[verifier::rlimit(100)]
pub fn parse_value(s: &str) -> (r: (Option<i64>, bool))
    ensures
        r == parsed_cell(s.spec_bytes(), s@),
{
    let t = trimmed_bytes(s);
    let parsed = parse_decimal(t.as_slice());
    match parsed {
        Some(v) => {
            let c = classify_exec(v);
            (Some(c.0), c.1)
        },
        None => {
            if is_compact_shape(&t) {
                let formatted = compact_reformat(&t);
                match parse_datetime_millis(formatted.as_str(), "%Y-%m-%d %H:%M:%S") {
                    Some(ms) => {
                        let fp_w: i128 = (ms as i128) * (crate::SCALE as i128);
                        let fp = crate::div_floor_i128(fp_w, 1000);
                        if -0x8_0000_0000_0000 <= fp && fp <= 0x8_0000_0000_0000 {
                            proof {
                                assert(compact_value(t@) == Some(fp as i64));
                            }
                            return (Some(fp as i64), true);
                        }
                    },
                    None => {
                    },
                }
            }
            proof {
                assert(compact_value(trimmed_spec(s.spec_bytes())) is None);
            }
            let mut i: usize = 0;
            while i < FORMAT_COUNT
                invariant
                    0 <= i <= FORMAT_COUNT,
                    decimal_spec(trimmed_spec(s.spec_bytes())) is None,
                    compact_value(trimmed_spec(s.spec_bytes())) is None,
                    cascade_from(s@, 0) == cascade_from(s@, i as int),
                decreases FORMAT_COUNT - i,
            {
                let fmt = format_str(i);
                match parse_datetime_millis(s, fmt) {
                    Some(ms) => {
                        let fp_w: i128 = (ms as i128) * (crate::SCALE as i128);
                        let fp = crate::div_floor_i128(fp_w, 1000);
                        if -0x8_0000_0000_0000 <= fp && fp <= 0x8_0000_0000_0000 {
                            return (Some(fp as i64), true);
                        }
                    },
                    None => {
                    },
                }
                i = i + 1;
            }
            (None, false)
        },
    }
}

/// The trimmed end never exceeds the length.
proof fn lemma_trim_end_le(b: Seq<u8>)
    ensures
        trim_end(b) <= b.len(),
    decreases b.len(),
{
    if b.len() > 0 && is_space(b.last()) {
        lemma_trim_end_le(b.drop_last());
    }
}

} // verus!
