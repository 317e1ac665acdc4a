use vstd::prelude::*;
use vstd::string::*;
use crate::digits::{
    all_digits, digits_value, lemma_digits_value_push, lemma_pow10_add, lemma_pow10_positive,
    pow10,
};
use crate::material::invalid_with;
use crate::number::{lemma_pow2_add, pow2};
use crate::text::{decimal_text, digit_char, push_char, push_decimal};
use crate::types::Error;

verus! {

/// `5^n`.
pub open spec fn pow5(n: nat) -> nat
    decreases n,
{
    if n == 0 {
        1
    } else {
        5 * pow5((n - 1) as nat)
    }
}

/// `d` with every factor 2 and 5 divided out: 1 exactly when `1/d` has a
/// terminating decimal expansion.
pub open spec fn strip_2_5(d: nat) -> nat
    decreases d,
{
    if d == 0 {
        0
    } else if d % 2 == 0 {
        strip_2_5(d / 2)
    } else if d % 5 == 0 {
        strip_2_5(d / 5)
    } else {
        d
    }
}

/// The characters of a digit sequence.
pub open spec fn digit_text(ds: Seq<u8>) -> Seq<char> {
    ds.map_values(|x: u8| digit_char(x as nat))
}

/// `ds` spells the fraction `rem / d` exactly, with no trailing zero.
pub open spec fn exact_fraction(ds: Seq<u8>, rem: nat, d: nat) -> bool {
    &&& ds.len() > 0
    &&& all_digits(ds)
    &&& ds.last() != 0
    &&& digits_value(ds) * d == rem * pow10(ds.len())
}

/// The text of `numerator / denominator`: an integer when it divides, a
/// terminating decimal when one exists, and `n/d` otherwise.
pub open spec fn ratio_text_ok(numerator: nat, denominator: nat, s: Seq<char>) -> bool {
    let whole = numerator / denominator;
    let rem = numerator % denominator;
    if rem == 0 {
        s == decimal_text(whole)
    } else if strip_2_5(denominator) != 1 {
        s == decimal_text(numerator) + seq!['/'] + decimal_text(denominator)
    } else {
        exists|ds: Seq<u8>|
            exact_fraction(ds, rem, denominator) && s == decimal_text(whole) + seq!['.']
                + digit_text(ds)
    }
}

pub proof fn lemma_pow5_positive(n: nat)
    ensures
        pow5(n) >= 1,
    decreases n,
{
    if n > 0 {
        lemma_pow5_positive((n - 1) as nat);
    }
}

pub proof fn lemma_pow5_add(a: nat, b: nat)
    ensures
        pow5(a + b) == pow5(a) * pow5(b),
    decreases b,
{
    if b == 0 {
        assert(a + b == a);
        assert(pow5(b) == 1);
        assert(pow5(a) * 1 == pow5(a));
    } else {
        let m = (b - 1) as nat;
        lemma_pow5_add(a, m);
        assert((a + b - 1) as nat == a + m);
        assert(pow5(a + b) == 5 * pow5(a + m));
        assert(pow5(b) == 5 * pow5(m));
        assert(pow5(a) * (5 * pow5(m)) == 5 * (pow5(a) * pow5(m))) by (nonlinear_arith);
    }
}

/// `10^n = 2^n 5^n`.
pub proof fn lemma_pow10_split(n: nat)
    ensures
        pow10(n) == pow2(n) * pow5(n),
    decreases n,
{
    if n == 0 {
        assert(pow10(0) == 1 && pow2(0) == 1 && pow5(0) == 1);
    } else {
        let m = (n - 1) as nat;
        lemma_pow10_split(m);
        assert(pow10(n) == 10 * pow10(m));
        assert(pow2(n) == 2 * pow2(m));
        assert(pow5(n) == 5 * pow5(m));
        assert(10 * (pow2(m) * pow5(m)) == (2 * pow2(m)) * (5 * pow5(m))) by (nonlinear_arith);
    }
}

/// A denominator `2^a 5^b` divides `10^k` once `k` reaches both exponents.
proof fn lemma_divides_pow10(a: nat, b: nat, k: nat) -> (c: nat)
    requires
        a <= k,
        b <= k,
    ensures
        pow10(k) == pow2(a) * pow5(b) * c,
{
    lemma_pow10_split(k);
    lemma_pow2_add(a, (k - a) as nat);
    lemma_pow5_add(b, (k - b) as nat);
    let c = pow2((k - a) as nat) * pow5((k - b) as nat);
    assert(pow2(a) * pow2((k - a) as nat) * (pow5(b) * pow5((k - b) as nat)) == pow2(a) * pow5(
        b,
    ) * c) by (nonlinear_arith)
        requires
            c == pow2((k - a) as nat) * pow5((k - b) as nat),
    ;
    c
}

/// Two exact spellings of the same fraction are the same digits.
pub proof fn lemma_exact_fraction_unique(x: Seq<u8>, y: Seq<u8>, rem: nat, d: nat)
    requires
        d > 0,
        exact_fraction(x, rem, d),
        exact_fraction(y, rem, d),
    ensures
        x == y,
{
    if x.len() <= y.len() {
        lemma_exact_fraction_ordered(x, y, rem, d);
    } else {
        lemma_exact_fraction_ordered(y, x, rem, d);
    }
}

proof fn lemma_exact_fraction_ordered(x: Seq<u8>, y: Seq<u8>, rem: nat, d: nat)
    requires
        d > 0,
        exact_fraction(x, rem, d),
        exact_fraction(y, rem, d),
        x.len() <= y.len(),
    ensures
        x == y,
{
    let vx = digits_value(x);
    let vy = digits_value(y);
    let g = (y.len() - x.len()) as nat;
    let px = pow10(x.len());
    let pg = pow10(g);
    lemma_pow10_add(x.len(), g);
    assert(y.len() == x.len() + g);
    lemma_pow10_positive(x.len());
    // vy * d == rem * px * pg == vx * d * pg
    assert(vy * d == (vx * pg) * d) by (nonlinear_arith)
        requires
            vx * d == rem * px,
            vy * d == rem * pow10(y.len()),
            pow10(y.len()) == px * pg,
    ;
    assert(vy == vx * pg) by (nonlinear_arith)
        requires
            vy * d == (vx * pg) * d,
            d > 0,
    ;
    lemma_digits_value_push(y.drop_last(), y.last());
    assert(y.drop_last().push(y.last()) =~= y);
    let t = digits_value(y.drop_last());
    assert(vy == t * 10 + y.last() as nat);
    if g > 0 {
        let m = vx * pow10((g - 1) as nat);
        assert(pg == 10 * pow10((g - 1) as nat));
        assert(vy == m * 10) by (nonlinear_arith)
            requires
                vy == vx * pg,
                pg == 10 * pow10((g - 1) as nat),
                m == vx * pow10((g - 1) as nat),
        ;
        assert(0 < y.last() <= 9);
        assert(false);
    }
    assert(pg == 1);
    assert(vx * pg == vx) by (nonlinear_arith)
        requires
            pg == 1,
    ;
    assert(vx == vy);
    lemma_same_value_same_digits(x, y);
}

/// Digit sequences of equal length and value are equal.
proof fn lemma_same_value_same_digits(x: Seq<u8>, y: Seq<u8>)
    requires
        x.len() == y.len(),
        all_digits(x),
        all_digits(y),
        digits_value(x) == digits_value(y),
    ensures
        x == y,
    decreases x.len(),
{
    if x.len() > 0 {
        let px = x.drop_last();
        let py = y.drop_last();
        assert(all_digits(px));
        assert(all_digits(py));
        assert(digits_value(x) == digits_value(px) * 10 + x.last() as nat);
        assert(digits_value(y) == digits_value(py) * 10 + y.last() as nat);
        assert(x.last() == y.last() && digits_value(px) == digits_value(py)) by (nonlinear_arith)
            requires
                digits_value(px) * 10 + x.last() as nat == digits_value(py) * 10 + y.last() as nat,
                x.last() <= 9,
                y.last() <= 9,
        ;
        lemma_same_value_same_digits(px, py);
        assert(x =~= px.push(x.last()));
        assert(y =~= py.push(y.last()));
    } else {
        assert(x =~= y);
    }
}

/// Halving an even denominator moves one factor 2 into the count.
proof fn lemma_take_factor(d: nat, f: nat, pf: nat, pf1: nat, other: nat)
    requires
        f > 0,
        d % f == 0,
        pf1 == f * pf,
    ensures
        (d / f) * pf1 * other == d * pf * other,
{
    vstd::arithmetic::div_mod::lemma_fundamental_div_mod(d as int, f as int);
    let h = d / f;
    assert(d == f * h);
    assert(h * (f * pf) * other == (f * h) * pf * other) by (nonlinear_arith);
}

/// An odd multiple of five stays odd once the five is divided out.
proof fn lemma_odd_fifth(d: nat)
    requires
        d % 5 == 0,
        d % 2 == 1,
    ensures
        (d / 5) % 2 == 1,
{
    vstd::arithmetic::div_mod::lemma_fundamental_div_mod(d as int, 5);
    let h = d / 5;
    vstd::arithmetic::div_mod::lemma_fundamental_div_mod(h as int, 2);
    if h % 2 == 0 {
        let j = h / 2;
        assert(d == 10 * j);
        vstd::arithmetic::div_mod::lemma_mod_multiples_basic((5 * j) as int, 2);
        assert((5 * j) * 2 == d) by (nonlinear_arith)
            requires
                d == 10 * j,
        ;
    }
}

/// One step of long division keeps `rem0 * 10^len = value * d + rem`.
proof fn lemma_division_step(
    rem0: nat,
    d: nat,
    len: nat,
    value: nat,
    old_rem: nat,
    q: nat,
    rem: nat,
)
    requires
        d > 0,
        old_rem < d,
        rem < d,
        old_rem * 10 == q * d + rem,
        rem0 * pow10(len) == value * d + old_rem,
    ensures
        q < 10,
        rem0 * pow10(len + 1) == (value * 10 + q) * d + rem,
        rem == 0 && old_rem > 0 ==> q > 0,
{
    assert(pow10(len + 1) == 10 * pow10(len));
    assert(q < 10) by (nonlinear_arith)
        requires
            old_rem * 10 == q * d + rem,
            old_rem < d,
            rem >= 0,
    ;
    assert(rem0 * (10 * pow10(len)) == 10 * (rem0 * pow10(len))) by (nonlinear_arith);
    assert(10 * (value * d + old_rem) == (value * 10 + q) * d + rem) by (nonlinear_arith)
        requires
            old_rem * 10 == q * d + rem,
    ;
    if rem == 0 && old_rem > 0 && q == 0 {
        assert(q * d == 0) by (nonlinear_arith)
            requires
                q == 0,
        ;
    }
}

/// Once `d` divides `10^len`, the remainder of the long division is zero.
proof fn lemma_division_ends(rem0: nat, d: nat, c: nat, value: nat, rem: nat, len: nat)
    requires
        d > 0,
        rem < d,
        pow10(len) == d * c,
        rem0 * pow10(len) == value * d + rem,
    ensures
        rem == 0,
{
    assert(rem == (rem0 * c - value) * d) by (nonlinear_arith)
        requires
            rem0 * pow10(len) == value * d + rem,
            pow10(len) == d * c,
    ;
    if rem0 * c - value >= 1 {
        assert((rem0 * c - value) * d >= d) by (nonlinear_arith)
            requires
                rem0 * c - value >= 1,
                d > 0,
        ;
    } else if rem0 * c - value <= -1 {
        assert((rem0 * c - value) * d <= -d) by (nonlinear_arith)
            requires
                rem0 * c - value <= -1,
                d > 0,
        ;
    }
}

/// The text of `numerator / denominator`, exactly.
pub fn ratio_string(numerator: u64, denominator: u64) -> (r: Result<String, Error>)
    ensures
        match r {
            Ok(s) => denominator > 0 && ratio_text_ok(numerator as nat, denominator as nat, s@),
            Err(e) => denominator == 0 && invalid_with(e, "zero budget unit"@),
        },
{
    if denominator == 0 {
        return Err(Error::Invalid(String::from_str("zero budget unit")));
    }
    let whole = numerator / denominator;
    let rem0 = numerator % denominator;
    if rem0 == 0 {
        let mut out = String::new();
        push_decimal(&mut out, whole as u128);
        return Ok(out);
    }
    // Divide out the factors 2 and 5 of the denominator.
    let mut d = denominator;
    let ghost mut a: nat = 0;
    let ghost mut b: nat = 0;
    proof {
        assert(pow2(0) == 1 && pow5(0) == 1);
        assert(d * 1 * 1 == d);
    }
    while d % 2 == 0
        invariant
            d > 0,
            strip_2_5(d as nat) == strip_2_5(denominator as nat),
            denominator == d * pow2(a) * pow5(b),
            b == 0,
        decreases d,
    {
        proof {
            assert(pow2(a + 1) == 2 * pow2(a));
            lemma_take_factor(d as nat, 2, pow2(a), pow2(a + 1), pow5(b));
            a = a + 1;
        }
        d = d / 2;
    }
    while d % 5 == 0
        invariant
            d > 0,
            d % 2 == 1,
            strip_2_5(d as nat) == strip_2_5(denominator as nat),
            denominator == d * pow2(a) * pow5(b),
        decreases d,
    {
        proof {
            assert(pow5(b + 1) == 5 * pow5(b));
            lemma_take_factor(d as nat, 5, pow5(b), pow5(b + 1), pow2(a));
            assert(d * pow2(a) * pow5(b) == d * pow5(b) * pow2(a)) by (nonlinear_arith);
            assert((d / 5) * pow2(a) * pow5(b + 1) == (d / 5) * pow5(b + 1) * pow2(a))
                by (nonlinear_arith);
            lemma_odd_fifth(d as nat);
            b = b + 1;
        }
        d = d / 5;
    }
    assert(strip_2_5(d as nat) == d);
    if d != 1 {
        let mut out = String::new();
        push_decimal(&mut out, numerator as u128);
        push_char(&mut out, '/');
        push_decimal(&mut out, denominator as u128);
        assert(out@ =~= decimal_text(numerator as nat) + seq!['/'] + decimal_text(
            denominator as nat,
        ));
        assert(strip_2_5(denominator as nat) != 1);
        return Ok(out);
    }
    // `denominator` divides `10^k` with `k = max(a, b)`.
    let ghost k: nat = if a >= b {
        a
    } else {
        b
    };
    let ghost c = lemma_divides_pow10(a, b, k);
    let mut out = String::new();
    push_decimal(&mut out, whole as u128);
    push_char(&mut out, '.');
    let ghost prefix = out@;
    let du = denominator as u128;
    let mut rem: u128 = rem0 as u128;
    let ghost mut ds: Seq<u8> = Seq::empty();
    proof {
        assert(pow10(0) == 1);
        assert(ds.len() == 0);
        assert(digits_value(ds) == 0);
        assert(rem0 * pow10(ds.len()) == digits_value(ds) * denominator + rem) by (nonlinear_arith)
            requires
                pow10(ds.len()) == 1,
                digits_value(ds) == 0,
                rem == rem0,
        ;
        assert(digit_text(ds) =~= Seq::<char>::empty());
        assert(out@ =~= prefix + digit_text(ds));
    }
    while rem != 0
        invariant
            du == denominator,
            denominator == pow2(a) * pow5(b),
            pow10(k) == denominator * c,
            0 < rem0 < denominator,
            rem < du,
            ds.len() <= k,
            all_digits(ds),
            rem0 * pow10(ds.len()) == digits_value(ds) * denominator + rem,
            ds.len() == k ==> rem == 0,
            rem == 0 ==> ds.len() > 0 && ds.last() != 0,
            out@ == prefix + digit_text(ds),
        decreases k - ds.len(),
    {
        let ghost old_rem = rem;
        let ghost old_ds = ds;
        let r10 = rem * 10;
        let q = r10 / du;
        proof {
            vstd::arithmetic::div_mod::lemma_fundamental_div_mod(r10 as int, du as int);
            lemma_division_step(
                rem0 as nat,
                denominator as nat,
                old_ds.len(),
                digits_value(old_ds),
                old_rem as nat,
                (r10 / du) as nat,
                (r10 % du) as nat,
            );
        }
        let digit = q as u8;
        push_char(&mut out, crate::text::char_from_digit(digit as u32));
        rem = r10 % du;
        proof {
            ds = old_ds.push(digit);
            lemma_digits_value_push(old_ds, digit);
            assert(all_digits(ds));
            if ds.len() == k {
                lemma_division_ends(
                    rem0 as nat,
                    denominator as nat,
                    c,
                    digits_value(ds),
                    rem as nat,
                    k,
                );
            }
            if old_ds.len() == k {
                assert(old_rem == 0);
            }
            assert(digit_text(ds) =~= digit_text(old_ds).push(digit_char(digit as nat)));
            assert(out@ =~= prefix + digit_text(ds));
        }
    }
    proof {
        assert(exact_fraction(ds, rem0 as nat, denominator as nat));
        assert(out@ == decimal_text(whole as nat) + seq!['.'] + digit_text(ds));
    }
    Ok(out)
}

} // verus!
