use vstd::prelude::*;
use vstd::string::*;
use crate::digits::{all_digits, digits_value, floor_scaled, mul_digits, pow10};
use crate::material::invalid_with;
use crate::text::chars_of;
use crate::types::Error;

verus! {

/// The Unicode `White_Space` property, which `str::trim` removes.
pub open spec fn is_unicode_whitespace(c: char) -> bool {
    let u = c as u32;
    ||| 0x09 <= u <= 0x0D
    ||| u == 0x20
    ||| u == 0x85
    ||| u == 0xA0
    ||| u == 0x1680
    ||| 0x2000 <= u <= 0x200A
    ||| u == 0x2028
    ||| u == 0x2029
    ||| u == 0x202F
    ||| u == 0x205F
    ||| u == 0x3000
}

pub open spec fn trim_start(s: Seq<char>) -> Seq<char>
    decreases s.len(),
{
    if s.len() > 0 && is_unicode_whitespace(s[0]) {
        trim_start(s.drop_first())
    } else {
        s
    }
}

pub open spec fn trim_end(s: Seq<char>) -> Seq<char>
    decreases s.len(),
{
    if s.len() > 0 && is_unicode_whitespace(s.last()) {
        trim_end(s.drop_last())
    } else {
        s
    }
}

/// The text without leading and trailing whitespace.
pub open spec fn trim(s: Seq<char>) -> Seq<char> {
    trim_end(trim_start(s))
}

pub open spec fn is_ascii_digit(c: char) -> bool {
    '0' <= c <= '9'
}

pub open spec fn digit_of(c: char) -> u8 {
    (c as u32 - '0' as u32) as u8
}

pub open spec fn is_exp_marker(c: char) -> bool {
    c == 'e' || c == 'E'
}

/// How many exponent markers occur.
pub open spec fn count_markers(s: Seq<char>) -> nat
    decreases s.len(),
{
    if s.len() == 0 {
        0
    } else {
        count_markers(s.drop_last()) + if is_exp_marker(s.last()) {
            1nat
        } else {
            0nat
        }
    }
}

/// Index of the last exponent marker.
pub open spec fn last_marker(s: Seq<char>) -> int
    decreases s.len(),
{
    if s.len() == 0 {
        -1
    } else if is_exp_marker(s.last()) {
        s.len() - 1
    } else {
        last_marker(s.drop_last())
    }
}

/// The exponent carries an explicit sign.
pub open spec fn exponent_signed(ex: Seq<char>) -> bool {
    ex.len() > 0 && (ex[0] == '-' || ex[0] == '+')
}

/// The digits of an exponent, after its optional sign.
pub open spec fn exponent_digits(ex: Seq<char>) -> Seq<char> {
    if exponent_signed(ex) {
        ex.drop_first()
    } else {
        ex
    }
}

pub open spec fn all_ascii_digits(ds: Seq<char>) -> bool {
    forall|i: int| 0 <= i < ds.len() ==> is_ascii_digit(#[trigger] ds[i])
}

pub open spec fn char_digits(ds: Seq<char>) -> Seq<u8> {
    ds.map_values(|c: char| digit_of(c))
}

/// The value of a nonempty all-digit exponent, with an optional sign.
pub open spec fn exponent_value(ex: Seq<char>) -> Option<int> {
    let ds = exponent_digits(ex);
    if ds.len() == 0 || !all_ascii_digits(ds) {
        None
    } else {
        let v = digits_value(char_digits(ds)) as int;
        Some(
            if exponent_signed(ex) && ex[0] == '-' {
                -v
            } else {
                v
            },
        )
    }
}

/// The exponent as `i128` arithmetic saturates it.
pub open spec fn clamp_i128(e: int) -> int {
    if e > i128::MAX {
        i128::MAX as int
    } else if e < -(i128::MAX as int) {
        -(i128::MAX as int)
    } else {
        e
    }
}

pub open spec fn not_decimal() -> Seq<char> {
    "budget must be a decimal number"@
}

pub open spec fn not_nonnegative() -> Seq<char> {
    "budget must be finite and nonnegative"@
}

pub open spec fn exponent_out_of_range() -> Seq<char> {
    "budget exponent is out of range"@
}

pub open spec fn too_large() -> Seq<char> {
    "budget is too large"@
}

/// Mantissa and exponent of a literal, or why it is no decimal.
pub open spec fn split_exponent_spec(s: Seq<char>) -> Result<(Seq<char>, int), Seq<char>> {
    if count_markers(s) >= 2 {
        Err(not_decimal())
    } else if count_markers(s) == 0 {
        Ok((s, 0))
    } else {
        let k = last_marker(s);
        let ex = s.skip(k + 1);
        if ex.len() == 0 {
            Err(not_decimal())
        } else {
            match exponent_value(ex) {
                None => Err(exponent_out_of_range()),
                Some(e) => Ok((s.take(k), e)),
            }
        }
    }
}

/// The mantissa holds at least one digit.
pub open spec fn has_digit(m: Seq<char>) -> bool {
    exists|i: int| 0 <= i < m.len() && is_ascii_digit(#[trigger] m[i])
}

/// Digits and at most one decimal point, nothing else.
pub open spec fn mantissa_ok(m: Seq<char>) -> bool {
    &&& forall|i: int| 0 <= i < m.len() ==> is_ascii_digit(#[trigger] m[i]) || m[i] == '.'
    &&& forall|i: int, j: int| 0 <= i < j < m.len() && #[trigger] m[i] == '.' ==> #[trigger] m[j] != '.'
    &&& has_digit(m)
}

/// The digits of a mantissa, in order, without the point.
pub open spec fn mantissa_digits(m: Seq<char>) -> Seq<u8>
    decreases m.len(),
{
    if m.len() == 0 {
        Seq::empty()
    } else if is_ascii_digit(m.last()) {
        mantissa_digits(m.drop_last()).push(digit_of(m.last()))
    } else {
        mantissa_digits(m.drop_last())
    }
}

/// How many digits follow the decimal point.
pub open spec fn frac_digits(m: Seq<char>) -> nat
    decreases m.len(),
{
    if m.len() == 0 {
        0
    } else {
        frac_digits(m.drop_last()) + if is_ascii_digit(m.last()) && m.drop_last().contains('.') {
            1nat
        } else {
            0nat
        }
    }
}

/// `floor(text * multiplier)` for a nonnegative decimal literal, or the
/// reason it is refused.
pub open spec fn floor_mul_spec(text: Seq<char>, multiplier: u64) -> Result<nat, Seq<char>> {
    let t = trim(text);
    if t.len() == 0 {
        Err(not_decimal())
    } else {
        let s = if t[0] == '+' {
            t.drop_first()
        } else {
            t
        };
        if s.len() > 0 && s[0] == '-' {
            Err(not_nonnegative())
        } else {
            match split_exponent_spec(s) {
                Err(msg) => Err(msg),
                Ok((mant, e)) => if !mantissa_ok(mant) {
                    Err(not_decimal())
                } else {
                    let v = floor_scaled(
                        digits_value(mantissa_digits(mant)) * (multiplier as nat),
                        e - frac_digits(mant),
                    );
                    if v <= u64::MAX {
                        Ok(v)
                    } else {
                        Err(too_large())
                    }
                },
            }
        }
    }
}

fn is_whitespace_char(c: char) -> (b: bool)
    ensures
        b == is_unicode_whitespace(c),
{
    let u = c as u32;
    (0x09 <= u && u <= 0x0D) || u == 0x20 || u == 0x85 || u == 0xA0 || u == 0x1680 || (0x2000
        <= u && u <= 0x200A) || u == 0x2028 || u == 0x2029 || u == 0x202F || u == 0x205F || u
        == 0x3000
}

/// Bounds of the trimmed text inside `v`.
fn trim_bounds(v: &Vec<char>) -> (r: (usize, usize))
    ensures
        r.0 <= r.1 <= v@.len(),
        v@.subrange(r.0 as int, r.1 as int) == trim(v@),
{
    let mut i: usize = 0;
    assert(v@.subrange(0, v@.len() as int) =~= v@);
    while i < v.len() && is_whitespace_char(v[i])
        invariant
            i <= v@.len(),
            trim_start(v@) == trim_start(v@.subrange(i as int, v@.len() as int)),
        decreases v@.len() - i,
    {
        assert(v@.subrange(i as int, v@.len() as int).drop_first() =~= v@.subrange(
            i as int + 1,
            v@.len() as int,
        ));
        i = i + 1;
    }
    let ghost u = v@.subrange(i as int, v@.len() as int);
    assert(trim_start(u) == u);
    let mut j: usize = v.len();
    while j > i && is_whitespace_char(v[j - 1])
        invariant
            i <= j <= v@.len(),
            trim(v@) == trim_end(v@.subrange(i as int, j as int)),
        decreases j,
    {
        assert(v@.subrange(i as int, j as int).drop_last() =~= v@.subrange(
            i as int,
            j as int - 1,
        ));
        j = j - 1;
    }
    (i, j)
}

pub proof fn lemma_count_markers_take_le(s: Seq<char>, i: int)
    requires
        0 <= i <= s.len(),
    ensures
        count_markers(s.take(i)) <= count_markers(s),
    decreases s.len() - i,
{
    if i < s.len() {
        lemma_count_markers_take_le(s, i + 1);
        assert(s.take(i + 1).drop_last() =~= s.take(i));
    } else {
        assert(s.take(i) =~= s);
    }
}

/// Parses a signed exponent in `v[lo..hi]`, saturating like `i128` arithmetic.
fn parse_exponent(v: &Vec<char>, lo: usize, hi: usize) -> (r: Result<i128, Error>)
    requires
        lo <= hi <= v@.len(),
    ensures
        match r {
            Ok(e) => exponent_value(v@.subrange(lo as int, hi as int)) matches Some(t) && e
                == clamp_i128(t),
            Err(err) => exponent_value(v@.subrange(lo as int, hi as int)) is None && invalid_with(
                err,
                exponent_out_of_range(),
            ),
        },
{
    let ghost ex = v@.subrange(lo as int, hi as int);
    let mut start = lo;
    let mut negative = false;
    if lo < hi && (v[lo] == '-' || v[lo] == '+') {
        negative = v[lo] == '-';
        start = lo + 1;
    }
    let ghost ds = v@.subrange(start as int, hi as int);
    assert(ds =~= exponent_digits(ex));
    if start == hi {
        return Err(Error::Invalid(String::from_str("budget exponent is out of range")));
    }
    let mut value: i128 = 0;
    let mut k = start;
    proof {
        assert(v@.subrange(start as int, start as int).map_values(|c: char| digit_of(c))
            =~= Seq::<u8>::empty());
    }
    while k < hi
        invariant
            lo <= start <= k <= hi <= v@.len(),
            ds == v@.subrange(start as int, hi as int),
            ex == v@.subrange(lo as int, hi as int),
            ds == exponent_digits(ex),
            negative == (exponent_signed(ex) && ex[0] == '-'),
            forall|j: int| start <= j < k ==> is_ascii_digit(#[trigger] v@[j]),
            0 <= value,
            value as int == if digits_value(
                v@.subrange(start as int, k as int).map_values(|c: char| digit_of(c)),
            ) > i128::MAX {
                i128::MAX as int
            } else {
                digits_value(v@.subrange(start as int, k as int).map_values(|c: char| digit_of(c)))
                    as int
            },
        decreases hi - k,
    {
        let c = v[k];
        if !('0' <= c && c <= '9') {
            proof {
                assert(ds[k - start] == c);
                assert(!is_ascii_digit(ds[k - start]));
                assert(ds == exponent_digits(ex));
                assert(!all_ascii_digits(ds));
                assert(exponent_value(ex) is None);
                assert(ex == v@.subrange(lo as int, hi as int));
            }
            return Err(Error::Invalid(String::from_str("budget exponent is out of range")));
        }
        let d = (c as u32 - '0' as u32) as i128;
        let ghost prev = v@.subrange(start as int, k as int).map_values(|c: char| digit_of(c));
        proof {
            assert(v@.subrange(start as int, k as int + 1).map_values(|c: char| digit_of(c))
                =~= prev.push(digit_of(c)));
            crate::digits::lemma_digits_value_push(prev, digit_of(c));
        }
        if value > (i128::MAX - d) / 10 {
            value = i128::MAX;
        } else {
            value = value * 10 + d;
        }
        k = k + 1;
    }
    proof {
        assert(v@.subrange(start as int, hi as int).map_values(|c: char| digit_of(c))
            =~= char_digits(ds));
        assert forall|i: int| 0 <= i < ds.len() implies is_ascii_digit(#[trigger] ds[i]) by {
            assert(ds[i] == v@[start + i]);
        }
        assert(all_ascii_digits(ds));
    }
    if negative {
        Ok(-value)
    } else {
        Ok(value)
    }
}

/// Splits `v[lo..hi]` at its only exponent marker, if any.
pub(crate) fn split_exponent(v: &Vec<char>, lo: usize, hi: usize) -> (r: Result<(usize, i128), Error>)
    requires
        lo <= hi <= v@.len(),
    ensures
        match r {
            Ok((mid, e)) => split_exponent_spec(v@.subrange(lo as int, hi as int)) matches Ok(
                (mant, t),
            ) && lo <= mid <= hi && mant == v@.subrange(lo as int, mid as int) && e
                == clamp_i128(t),
            Err(err) => split_exponent_spec(v@.subrange(lo as int, hi as int)) matches Err(m)
                && invalid_with(err, m),
        },
{
    let ghost s = v@.subrange(lo as int, hi as int);
    let mut split: Option<usize> = None;
    let mut i = lo;
    assert(s.take(0) =~= Seq::<char>::empty());
    while i < hi
        invariant
            lo <= i <= hi <= v@.len(),
            s == v@.subrange(lo as int, hi as int),
            count_markers(s.take(i - lo)) <= 1,
            split is None <==> count_markers(s.take(i - lo)) == 0,
            split matches Some(p) ==> p == lo + last_marker(s.take(i - lo)) && lo <= p < i,
        decreases hi - i,
    {
        assert(s.take(i - lo + 1).drop_last() =~= s.take(i - lo));
        assert(s.take(i - lo + 1).last() == v@[i as int]);
        if v[i] == 'e' || v[i] == 'E' {
            if split.is_some() {
                proof {
                    lemma_count_markers_take_le(s, i - lo + 1);
                }
                return Err(Error::Invalid(String::from_str("budget must be a decimal number")));
            }
            split = Some(i);
        }
        i = i + 1;
    }
    assert(s.take(hi - lo) =~= s);
    match split {
        None => Ok((hi, 0)),
        Some(p) => {
            assert(s.skip(p - lo + 1) =~= v@.subrange(p as int + 1, hi as int));
            assert(s.take(p - lo) =~= v@.subrange(lo as int, p as int));
            if p + 1 == hi {
                return Err(Error::Invalid(String::from_str("budget must be a decimal number")));
            }
            let e = parse_exponent(v, p + 1, hi)?;
            Ok((p, e))
        },
    }
}

/// Reads the digits of the mantissa `v[lo..hi]` and counts the fractional ones.
fn scan_mantissa(v: &Vec<char>, lo: usize, hi: usize) -> (r: Result<(Vec<u8>, usize), Error>)
    requires
        lo <= hi <= v@.len(),
    ensures
        match r {
            Ok((ds, frac)) => mantissa_ok(v@.subrange(lo as int, hi as int)) && ds@
                == mantissa_digits(v@.subrange(lo as int, hi as int)) && frac == frac_digits(
                v@.subrange(lo as int, hi as int),
            ) && ds@.len() <= hi - lo && all_digits(ds@),
            Err(err) => !mantissa_ok(v@.subrange(lo as int, hi as int)) && invalid_with(
                err,
                not_decimal(),
            ),
        },
{
    let ghost m = v@.subrange(lo as int, hi as int);
    let mut digits: Vec<u8> = Vec::new();
    let mut frac: usize = 0;
    let mut seen_dot = false;
    let mut seen_digit = false;
    let mut i = lo;
    assert(m.take(0) =~= Seq::<char>::empty());
    while i < hi
        invariant
            lo <= i <= hi <= v@.len(),
            m == v@.subrange(lo as int, hi as int),
            digits@ == mantissa_digits(m.take(i - lo)),
            all_digits(digits@),
            digits@.len() <= i - lo,
            frac == frac_digits(m.take(i - lo)),
            frac <= i - lo,
            seen_dot == m.take(i - lo).contains('.'),
            seen_digit == has_digit(m.take(i - lo)),
            forall|j: int| 0 <= j < i - lo ==> is_ascii_digit(#[trigger] m[j]) || m[j] == '.',
            forall|a: int, b: int|
                0 <= a < b < i - lo && #[trigger] m[a] == '.' ==> #[trigger] m[b] != '.',
        decreases hi - i,
    {
        let c = v[i];
        let ghost p = m.take(i - lo);
        let ghost q = m.take(i - lo + 1);
        assert(q.drop_last() =~= p);
        assert(q.last() == c);
        assert(m[i - lo] == c);
        if '0' <= c && c <= '9' {
            seen_digit = true;
            digits.push((c as u32 - '0' as u32) as u8);
            if seen_dot {
                frac = frac + 1;
            }
            proof {
                assert(q[i - lo] == c);
                assert(has_digit(q));
                assert(q.contains('.') == p.contains('.')) by {
                    if q.contains('.') {
                        let w = choose|w: int| 0 <= w < q.len() && q[w] == '.';
                        assert(w < p.len());
                        assert(p[w] == '.');
                    }
                    if p.contains('.') {
                        let w = choose|w: int| 0 <= w < p.len() && p[w] == '.';
                        assert(q[w] == '.');
                    }
                }
                if has_digit(p) {
                    let w = choose|w: int| 0 <= w < p.len() && is_ascii_digit(p[w]);
                    assert(q[w] == p[w]);
                }
            }
        } else if c == '.' && !seen_dot {
            seen_dot = true;
            proof {
                assert(q[i - lo] == '.');
                assert(q.contains('.'));
                assert(has_digit(q) == has_digit(p)) by {
                    if has_digit(q) {
                        let w = choose|w: int| 0 <= w < q.len() && is_ascii_digit(q[w]);
                        assert(w < p.len());
                        assert(p[w] == q[w]);
                    }
                    if has_digit(p) {
                        let w = choose|w: int| 0 <= w < p.len() && is_ascii_digit(p[w]);
                        assert(q[w] == p[w]);
                    }
                }
                assert forall|a: int, b: int|
                    0 <= a < b < i - lo + 1 && #[trigger] m[a] == '.' implies #[trigger] m[b]
                    != '.' by {
                    if b == i - lo {
                        assert(p[a] == '.');
                        assert(p.contains('.'));
                    }
                }
            }
        } else {
            proof {
                if c == '.' {
                    let w = choose|w: int| 0 <= w < p.len() && p[w] == '.';
                    assert(m[w] == '.');
                    assert(m[i - lo] == '.');
                }
            }
            return Err(Error::Invalid(String::from_str("budget must be a decimal number")));
        }
        i = i + 1;
    }
    assert(m.take(hi - lo) =~= m);
    if !seen_digit {
        return Err(Error::Invalid(String::from_str("budget must be a decimal number")));
    }
    Ok((digits, frac))
}

pub proof fn lemma_u64_max_below_pow10_20()
    ensures
        (u64::MAX as nat) < pow10(20),
{
    assert(pow10(20) == 100000000000000000000nat) by {
        reveal_with_fuel(pow10, 21);
    }
}

/// The value of the first `int_len` digits of `ds`, followed by `appended`
/// zeros, as a `u64`.
fn digits_to_u64(ds: &Vec<u8>, int_len: usize, appended: u128) -> (r: Result<u64, Error>)
    requires
        all_digits(ds@),
        0 < int_len <= ds@.len(),
        ds@[0] != 0,
    ensures
        match r {
            Ok(v) => v == digits_value(ds@.take(int_len as int)) * pow10(appended as nat),
            Err(err) => digits_value(ds@.take(int_len as int)) * pow10(appended as nat)
                > u64::MAX && invalid_with(err, too_large()),
        },
{
    let ghost prefix = ds@.take(int_len as int);
    proof {
        crate::digits::lemma_digits_value_lower(prefix);
        lemma_u64_max_below_pow10_20();
        crate::digits::lemma_pow10_positive(appended as nat);
    }
    if appended > 20 || int_len as u128 + appended > 20 {
        proof {
            crate::digits::lemma_pow10_add((int_len - 1) as nat, appended as nat);
            crate::digits::lemma_pow10_monotone(20, (int_len - 1 + appended) as nat);
            assert(digits_value(prefix) * pow10(appended as nat) >= pow10((int_len - 1) as nat)
                * pow10(appended as nat)) by (nonlinear_arith)
                requires
                    digits_value(prefix) >= pow10((int_len - 1) as nat),
            ;
        }
        return Err(Error::Invalid(String::from_str("budget is too large")));
    }
    let mut value: u64 = 0;
    let mut i: usize = 0;
    assert(ds@.take(0) =~= Seq::<u8>::empty());
    while i < int_len
        invariant
            all_digits(ds@),
            i <= int_len <= ds@.len(),
            prefix == ds@.take(int_len as int),
            value == digits_value(ds@.take(i as int)),
            pow10(appended as nat) >= 1,
        decreases int_len - i,
    {
        let d = ds[i];
        proof {
            assert(ds@.take(i as int + 1) =~= ds@.take(i as int).push(d));
            crate::digits::lemma_digits_value_push(ds@.take(i as int), d);
        }
        let next = match value.checked_mul(10) {
            Some(t) => t.checked_add(d as u64),
            None => None,
        };
        match next {
            Some(t) => value = t,
            None => {
                proof {
                    assert(prefix.take(i as int + 1) =~= ds@.take(i as int + 1));
                    crate::digits::lemma_digits_value_take_le(prefix, i as int + 1);
                    assert(digits_value(prefix) * pow10(appended as nat) >= digits_value(prefix))
                        by (nonlinear_arith)
                        requires
                            pow10(appended as nat) >= 1,
                    ;
                }
                return Err(Error::Invalid(String::from_str("budget is too large")));
            },
        }
        i = i + 1;
    }
    let ghost base = digits_value(prefix);
    let mut j: u128 = 0;
    assert(pow10(0) == 1);
    while j < appended
        invariant
            j <= appended <= 20,
            base == digits_value(ds@.take(int_len as int)),
            value == base * pow10(j as nat),
        decreases appended - j,
    {
        proof {
            assert(pow10(j as nat + 1) == 10 * pow10(j as nat));
            assert(base * pow10(j as nat + 1) == (base * pow10(j as nat)) * 10)
                by (nonlinear_arith)
                requires
                    pow10(j as nat + 1) == 10 * pow10(j as nat),
            ;
        }
        match value.checked_mul(10) {
            Some(t) => value = t,
            None => {
                proof {
                    crate::digits::lemma_pow10_add((j + 1) as nat, (appended - j - 1) as nat);
                    crate::digits::lemma_pow10_positive((appended - j - 1) as nat);
                    assert(base * pow10(appended as nat) >= base * pow10(j as nat + 1))
                        by (nonlinear_arith)
                        requires
                            pow10(appended as nat) == pow10(j as nat + 1) * pow10(
                                (appended - j - 1) as nat,
                            ),
                            pow10((appended - j - 1) as nat) >= 1,
                    ;
                }
                return Err(Error::Invalid(String::from_str("budget is too large")));
            },
        }
        j = j + 1;
    }
    Ok(value)
}

/// A number below `10^k` rounds down to zero when divided by `10^k`.
proof fn lemma_small_quotient(p: nat, len: nat, k: nat)
    requires
        p < pow10(len),
        len <= k,
    ensures
        p / pow10(k) == 0,
{
    crate::digits::lemma_pow10_monotone(len, k);
    crate::digits::lemma_pow10_positive(k);
    vstd::arithmetic::div_mod::lemma_basic_div(p as int, pow10(k) as int);
}

/// `floor(digits * multiplier * 10^(exponent - frac))`, where the exponent
/// may have been saturated by `i128` arithmetic.
fn scaled_floor(
    digits: &Vec<u8>,
    frac: usize,
    exponent: i128,
    Ghost(e_true): Ghost<int>,
    multiplier: u64,
) -> (r: Result<u64, Error>)
    requires
        all_digits(digits@),
        digits@.len() + 20 <= usize::MAX,
        exponent == clamp_i128(e_true),
    ensures
        match r {
            Ok(v) => floor_scaled(digits_value(digits@) * (multiplier as nat), e_true - frac)
                == v,
            Err(e) => floor_scaled(digits_value(digits@) * (multiplier as nat), e_true - frac)
                > u64::MAX && invalid_with(e, too_large()),
        },
{
    let ghost k = e_true - frac;
    let ghost mm = digits_value(digits@);
    let mut first_nonzero: usize = 0;
    while first_nonzero < digits.len() && digits[first_nonzero] == 0
        invariant
            first_nonzero <= digits@.len(),
            forall|j: int| 0 <= j < first_nonzero ==> digits@[j] == 0,
        decreases digits@.len() - first_nonzero,
    {
        first_nonzero = first_nonzero + 1;
    }
    if first_nonzero == digits.len() {
        proof {
            crate::digits::lemma_digits_value_zeros(digits@);
            crate::digits::lemma_pow10_positive((-k) as nat);
            assert(mm * (multiplier as nat) == 0) by (nonlinear_arith)
                requires
                    mm == 0,
            ;
            assert(floor_scaled(0, k) == 0) by (nonlinear_arith)
                requires
                    pow10((-k) as nat) >= 1,
            ;
        }
        return Ok(0);
    }
    if multiplier == 0 {
        proof {
            crate::digits::lemma_pow10_positive((-k) as nat);
            assert(floor_scaled(mm * 0nat, k) == 0) by (nonlinear_arith)
                requires
                    pow10((-k) as nat) >= 1,
            ;
        }
        return Ok(0);
    }
    let mut stripped: Vec<u8> = Vec::new();
    let mut j = first_nonzero;
    while j < digits.len()
        invariant
            first_nonzero <= j <= digits@.len(),
            stripped@ == digits@.subrange(first_nonzero as int, j as int),
        decreases digits@.len() - j,
    {
        stripped.push(digits[j]);
        j = j + 1;
    }
    proof {
        assert(stripped@ =~= digits@.skip(first_nonzero as int));
        crate::digits::lemma_digits_value_leading_zeros(digits@, first_nonzero as int);
        crate::digits::lemma_digits_value_lower(stripped@);
        crate::digits::lemma_pow10_positive((stripped@.len() - 1) as nat);
        assert(all_digits(stripped@));
    }
    let product = mul_digits(&stripped, multiplier);
    let ghost pv = digits_value(product@);
    proof {
        assert(pv >= 1) by (nonlinear_arith)
            requires
                pv == mm * multiplier,
                mm >= 1,
                multiplier >= 1,
        ;
        if product@.len() == 0 {
            assert(digits_value(product@) == 0);
        }
        crate::digits::lemma_digits_value_bound(product@);
        assert(product@.take(product@.len() as int) =~= product@);
        lemma_u64_max_below_pow10_20();
    }
    let len = product.len();
    let f = frac as i128;
    if exponent >= f {
        let appended = (exponent - f) as u128;
        let r = digits_to_u64(&product, len, appended);
        proof {
            if exponent < i128::MAX {
                assert(e_true == exponent);
            } else {
                assert(appended > 20);
                crate::digits::lemma_pow10_monotone(20, appended as nat);
                assert(pv * pow10(appended as nat) >= pow10(appended as nat)) by (nonlinear_arith)
                    requires
                        pv >= 1,
                ;
            }
            assert(k >= appended);
            crate::digits::lemma_pow10_add(appended as nat, (k - appended) as nat);
            crate::digits::lemma_pow10_positive((k - appended) as nat);
            assert(pv * pow10(k as nat) >= pv * pow10(appended as nat)) by (nonlinear_arith)
                requires
                    pow10(k as nat) == pow10(appended as nat) * pow10((k - appended) as nat),
                    pow10((k - appended) as nat) >= 1,
            ;
            assert(pv == mm * (multiplier as nat));
            assert(floor_scaled(pv, k) == pv * pow10(k as nat));
        }
        match r {
            Ok(v) => {
                assert(v == pv * pow10(appended as nat));
                assert(k == appended);
                assert(floor_scaled(mm * (multiplier as nat), e_true - frac) == v);
                Ok(v)
            },
            Err(e) => {
                assert(pv * pow10(appended as nat) > u64::MAX);
                assert(floor_scaled(mm * (multiplier as nat), e_true - frac) > u64::MAX);
                Err(e)
            },
        }
    } else {
        proof {
            assert(e_true <= exponent);
        }
        if exponent < 0 && -exponent >= len as i128 {
            proof {
                lemma_small_quotient(pv, len as nat, (-k) as nat);
            }
            return Ok(0);
        }
        let scale = f - exponent;
        if scale >= len as i128 {
            proof {
                lemma_small_quotient(pv, len as nat, (-k) as nat);
            }
            return Ok(0);
        }
        proof {
            assert(e_true == exponent);
            crate::digits::lemma_digits_value_prefix(product@, scale as nat);
            assert(pow10(0) == 1);
            assert(k == -scale);
            assert(floor_scaled(pv, k) == pv / pow10(scale as nat));
        }
        let r = digits_to_u64(&product, len - scale as usize, 0);
        proof {
            let q = digits_value(product@.take(len - scale));
            assert(q * pow10(0) == q);
        }
        r
    }
}

/// Exact `floor(decimal * multiplier)` for a nonnegative finite decimal
/// literal, such as a kernel-count budget.  No binary floating point takes
/// part in material accounting.
pub fn floor_mul(text: &str, multiplier: u64) -> (r: Result<u64, Error>)
    requires
        text@.len() + 20 <= usize::MAX,
    ensures
        match r {
            Ok(v) => floor_mul_spec(text@, multiplier) == Ok::<nat, Seq<char>>(v as nat),
            Err(e) => floor_mul_spec(text@, multiplier) matches Err(m) && invalid_with(e, m),
        },
{
    let v = chars_of(text);
    let (lo0, hi) = trim_bounds(&v);
    let ghost t = v@.subrange(lo0 as int, hi as int);
    if lo0 == hi {
        return Err(Error::Invalid(String::from_str("budget must be a decimal number")));
    }
    let mut lo = lo0;
    if v[lo] == '+' {
        lo = lo + 1;
    }
    let ghost s = v@.subrange(lo as int, hi as int);
    assert(t[0] == '+' ==> s =~= t.drop_first());
    assert(t[0] != '+' ==> s =~= t);
    if lo < hi && v[lo] == '-' {
        return Err(Error::Invalid(String::from_str("budget must be finite and nonnegative")));
    }
    let (mid, exponent) = split_exponent(&v, lo, hi)?;
    let ghost e_true = split_exponent_spec(s)->Ok_0.1;
    let (digits, frac) = scan_mantissa(&v, lo, mid)?;
    scaled_floor(&digits, frac, exponent, Ghost(e_true), multiplier)
}

} // verus!
