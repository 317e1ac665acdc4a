use vstd::prelude::*;
use crate::decimal::{
    all_ascii_digits, char_digits, count_markers, digit_of, floor_mul_spec, frac_digits,
    is_ascii_digit, is_exp_marker, is_unicode_whitespace, mantissa_digits,
    mantissa_ok, split_exponent_spec, trim, trim_start,
};
use crate::digits::{
    all_digits, digits_value, floor_scaled, lemma_digits_value_concat, lemma_pow10_positive,
    pow10,
};
use crate::material::{fits_u64, min_units_for, resolve_for, Ledger};
use crate::ratio::{digit_text, exact_fraction, ratio_text_ok, strip_2_5};
use crate::text::{decimal_text, digit_char};
use crate::types::Budget;

verus! {

/// The characters of a decimal text are ASCII digits, and they spell `n`.
pub proof fn lemma_decimal_text_digits(n: nat)
    ensures
        decimal_text(n).len() > 0,
        all_ascii_digits(decimal_text(n)),
        digits_value(char_digits(decimal_text(n))) == n,
    decreases n,
{
    let t = decimal_text(n);
    if n < 10 {
        assert(t == seq![digit_char(n)]);
        assert(char_digits(t) =~= seq![n as u8]);
        assert(seq![n as u8].drop_last() =~= Seq::<u8>::empty());
        assert(digits_value(Seq::<u8>::empty()) == 0);
        assert(digits_value(seq![n as u8]) == digits_value(seq![n as u8].drop_last()) * 10 + seq![
            n as u8,
        ].last() as nat);
    } else {
        lemma_decimal_text_digits(n / 10);
        let h = decimal_text(n / 10);
        assert(t == h.push(digit_char(n % 10)));
        assert(char_digits(t) =~= char_digits(h).push((n % 10) as u8));
        assert(char_digits(t).drop_last() =~= char_digits(h));
        assert(digits_value(char_digits(t)) == digits_value(char_digits(h)) * 10 + (n % 10));
        assert((n / 10) * 10 + n % 10 == n) by (nonlinear_arith);
        assert(all_ascii_digits(t)) by {
            assert forall|i: int| 0 <= i < t.len() implies is_ascii_digit(#[trigger] t[i]) by {
                if i < h.len() {
                    assert(t[i] == h[i]);
                }
            }
        }
    }
}

/// The characters of a digit sequence are ASCII digits that spell it back.
pub proof fn lemma_digit_text_digits(ds: Seq<u8>)
    requires
        all_digits(ds),
    ensures
        all_ascii_digits(digit_text(ds)),
        char_digits(digit_text(ds)) == ds,
{
    assert(char_digits(digit_text(ds)) =~= ds);
}

/// A text of digits holds no exponent marker.
proof fn lemma_no_markers(s: Seq<char>)
    requires
        forall|i: int| 0 <= i < s.len() ==> !is_exp_marker(#[trigger] s[i]),
    ensures
        count_markers(s) == 0,
    decreases s.len(),
{
    if s.len() > 0 {
        assert(!is_exp_marker(s[s.len() - 1]));
        lemma_no_markers(s.drop_last());
    }
}

/// Mantissa digits of a concatenation.
proof fn lemma_mantissa_digits_concat(a: Seq<char>, b: Seq<char>)
    ensures
        mantissa_digits(a + b) == mantissa_digits(a) + mantissa_digits(b),
    decreases b.len(),
{
    if b.len() == 0 {
        assert(a + b =~= a);
        assert(mantissa_digits(a) + mantissa_digits(b) =~= mantissa_digits(a));
    } else {
        lemma_mantissa_digits_concat(a, b.drop_last());
        assert((a + b).drop_last() =~= a + b.drop_last());
        if is_ascii_digit(b.last()) {
            assert(mantissa_digits(a) + mantissa_digits(b) =~= (mantissa_digits(a)
                + mantissa_digits(b.drop_last())).push(digit_of(b.last())));
        }
    }
}

/// The mantissa digits of an all-digit text are its digits.
proof fn lemma_mantissa_digits_all(s: Seq<char>)
    requires
        all_ascii_digits(s),
    ensures
        mantissa_digits(s) == char_digits(s),
    decreases s.len(),
{
    if s.len() > 0 {
        assert(is_ascii_digit(s[s.len() - 1]));
        assert(all_ascii_digits(s.drop_last()));
        lemma_mantissa_digits_all(s.drop_last());
        assert(char_digits(s) =~= char_digits(s.drop_last()).push(digit_of(s.last())));
    } else {
        assert(char_digits(s) =~= Seq::<u8>::empty());
    }
}

/// No digit of a text without a point follows a point.
proof fn lemma_frac_digits_none(s: Seq<char>)
    requires
        !s.contains('.'),
    ensures
        frac_digits(s) == 0,
    decreases s.len(),
{
    if s.len() > 0 {
        assert(!s.drop_last().contains('.')) by {
            if s.drop_last().contains('.') {
                let j = choose|j: int| 0 <= j < s.drop_last().len() && s.drop_last()[j] == '.';
                assert(s[j] == '.');
            }
        }
        lemma_frac_digits_none(s.drop_last());
    }
}

/// Digits after a point all count as fraction digits.
proof fn lemma_frac_digits_after_point(a: Seq<char>, f: Seq<char>)
    requires
        a.contains('.'),
        all_ascii_digits(f),
    ensures
        frac_digits(a + f) == frac_digits(a) + f.len(),
    decreases f.len(),
{
    if f.len() == 0 {
        assert(a + f =~= a);
    } else {
        assert(all_ascii_digits(f.drop_last()));
        lemma_frac_digits_after_point(a, f.drop_last());
        assert((a + f).drop_last() =~= a + f.drop_last());
        assert((a + f).last() == f.last());
        assert(is_ascii_digit(f[f.len() - 1]));
        let j = choose|j: int| 0 <= j < a.len() && a[j] == '.';
        assert((a + f.drop_last())[j] == '.');
    }
}

/// A text that starts and ends with a digit is its own trim.
proof fn lemma_trim_digits(t: Seq<char>)
    requires
        t.len() > 0,
        is_ascii_digit(t[0]),
        is_ascii_digit(t.last()),
    ensures
        trim(t) == t,
{
    assert(!is_unicode_whitespace(t[0]));
    assert(trim_start(t) == t);
    assert(!is_unicode_whitespace(t.last()));
}

/// The decimal text `D.F` of a terminating ratio reads back, as a count of
/// kernels, to exactly `w * U + rem` units.
proof fn lemma_read_back(w: nat, rem: nat, u: nat, ds: Seq<u8>)
    requires
        u > 0,
        u <= u64::MAX,
        exact_fraction(ds, rem, u),
        w * u + rem <= u64::MAX,
    ensures
        floor_mul_spec(decimal_text(w) + seq!['.'] + digit_text(ds), u as u64) == Ok::<
            nat,
            Seq<char>,
        >(w * u + rem),
{
    let d = decimal_text(w);
    let f = digit_text(ds);
    let a = d + seq!['.'];
    let t = a + f;
    lemma_decimal_text_digits(w);
    lemma_digit_text_digits(ds);
    assert(t.len() > 0);
    assert(t[0] == d[0]);
    assert(t.last() == f.last());
    assert(is_ascii_digit(f[f.len() - 1]));
    lemma_trim_digits(t);
    assert(forall|i: int| 0 <= i < t.len() ==> !is_exp_marker(#[trigger] t[i])) by {
        assert forall|i: int| 0 <= i < t.len() implies !is_exp_marker(#[trigger] t[i]) by {
            if i < d.len() {
                assert(t[i] == d[i]);
                assert(is_ascii_digit(d[i]));
            } else if i > d.len() {
                assert(t[i] == f[i - d.len() - 1]);
                assert(is_ascii_digit(f[i - d.len() - 1]));
            }
        }
    }
    lemma_no_markers(t);
    assert(split_exponent_spec(t) == Ok::<(Seq<char>, int), Seq<char>>((t, 0)));
    // the mantissa: digits, one point, digits
    assert(mantissa_ok(t)) by {
        assert forall|i: int| 0 <= i < t.len() implies is_ascii_digit(#[trigger] t[i]) || t[i]
            == '.' by {
            if i < d.len() {
                assert(t[i] == d[i]);
            } else if i > d.len() {
                assert(t[i] == f[i - d.len() - 1]);
            }
        }
        assert forall|i: int, j: int| 0 <= i < j < t.len() && #[trigger] t[i] == '.' implies #[trigger] t[j]
            != '.' by {
            if i < d.len() {
                assert(t[i] == d[i]);
                assert(is_ascii_digit(d[i]));
            }
            assert(i == d.len());
            assert(t[j] == f[j - d.len() - 1]);
            assert(is_ascii_digit(f[j - d.len() - 1]));
        }
        assert(is_ascii_digit(t[0]));
    }
    lemma_mantissa_digits_concat(a, f);
    lemma_mantissa_digits_concat(d, seq!['.']);
    assert(seq!['.'].drop_last() =~= Seq::<char>::empty());
    assert(!is_ascii_digit('.'));
    assert(mantissa_digits(Seq::<char>::empty()) =~= Seq::<u8>::empty());
    assert(mantissa_digits(seq!['.']) == mantissa_digits(seq!['.'].drop_last()));
    assert(mantissa_digits(seq!['.']) =~= Seq::<u8>::empty());
    lemma_mantissa_digits_all(d);
    lemma_mantissa_digits_all(f);
    assert(mantissa_digits(t) =~= char_digits(d) + ds);
    assert(!d.contains('.')) by {
        if d.contains('.') {
            let j = choose|j: int| 0 <= j < d.len() && d[j] == '.';
            assert(is_ascii_digit(d[j]));
        }
    }
    lemma_frac_digits_none(d);
    assert(a.drop_last() =~= d);
    assert(frac_digits(a) == 0);
    assert(a[d.len() as int] == '.');
    lemma_frac_digits_after_point(a, f);
    assert(frac_digits(t) == ds.len());
    lemma_digits_value_concat(char_digits(d), ds);
    let k = ds.len();
    let p = pow10(k);
    lemma_pow10_positive(k);
    let m = digits_value(mantissa_digits(t));
    assert(m == w * p + digits_value(ds));
    assert(floor_scaled(m * u, 0 - k) == (m * u) / p);
    assert(m * u == (w * u + rem) * p) by (nonlinear_arith)
        requires
            m == w * p + digits_value(ds),
            digits_value(ds) * u == rem * p,
    ;
    let y = (w * u + rem) as int;
    vstd::arithmetic::div_mod::lemma_div_multiples_vanish(y, p as int);
    assert(y * p == (p as int) * y) by (nonlinear_arith);
    assert((m * u) / p == y);
}

/// A whole number of kernels reads back to exactly `w * U` units.
proof fn lemma_read_back_whole(w: nat, u: nat)
    requires
        u <= u64::MAX,
        w * u <= u64::MAX,
    ensures
        floor_mul_spec(decimal_text(w), u as u64) == Ok::<nat, Seq<char>>(w * u),
{
    let d = decimal_text(w);
    lemma_decimal_text_digits(w);
    assert(is_ascii_digit(d[0]) && is_ascii_digit(d[d.len() - 1]));
    lemma_trim_digits(d);
    assert forall|i: int| 0 <= i < d.len() implies !is_exp_marker(#[trigger] d[i]) by {
        assert(is_ascii_digit(d[i]));
    }
    lemma_no_markers(d);
    assert(mantissa_ok(d)) by {
        assert forall|i: int, j: int| 0 <= i < j < d.len() && #[trigger] d[i] == '.' implies #[trigger] d[j]
            != '.' by {
            assert(is_ascii_digit(d[i]));
        }
        assert(is_ascii_digit(d[0]));
    }
    lemma_mantissa_digits_all(d);
    assert(!d.contains('.')) by {
        if d.contains('.') {
            let j = choose|j: int| 0 <= j < d.len() && d[j] == '.';
            assert(is_ascii_digit(d[j]));
        }
    }
    lemma_frac_digits_none(d);
    assert(pow10(0) == 1);
    assert(floor_scaled(w * u, 0) == w * u * 1);
}

/// Whenever the budget beyond the minimal state is a whole or terminating
/// count of kernels, installing its kernel equivalent as the budget gives
/// back exactly the same units.
pub proof fn law_budget_equivalent_round_trip(l: Ledger, text: Seq<char>, budget: Budget)
    requires
        min_units_for(l.mode, l.d(), l.p()) is Ok,
        fits_u64(l.spec_kernel_units()),
        l.budget_units >= min_units_for(l.mode, l.d(), l.p())->Ok_0,
        ratio_text_ok(
            (l.budget_units - min_units_for(l.mode, l.d(), l.p())->Ok_0) as nat,
            l.spec_kernel_units() as nat,
            text,
        ),
        ((l.budget_units - min_units_for(l.mode, l.d(), l.p())->Ok_0) as nat) % (
        l.spec_kernel_units() as nat) == 0 || strip_2_5(l.spec_kernel_units() as nat) == 1,
        budget matches Budget::Kernels(t) && t@ == text,
    ensures
        resolve_for(l.mode, l.d(), l.p(), budget) == Ok::<nat, Seq<char>>(l.budget_units as nat),
{
    let min = min_units_for(l.mode, l.d(), l.p())->Ok_0;
    let u = l.spec_kernel_units() as nat;
    let x = (l.budget_units - min) as nat;
    assert(u > 0) by (nonlinear_arith)
        requires
            u == (l.d() + 2) * l.p(),
            l.d() >= 0,
            l.p() >= 4,
    ;
    let w = x / u;
    let rem = x % u;
    vstd::arithmetic::div_mod::lemma_fundamental_div_mod(x as int, u as int);
    assert(x == w * u + rem) by (nonlinear_arith)
        requires
            x == u * (x / u) + x % u,
            w == x / u,
            rem == x % u,
    ;
    if rem == 0 {
        lemma_read_back_whole(w, u);
    } else {
        let ds = choose|ds: Seq<u8>|
            exact_fraction(ds, rem, u) && text == decimal_text(w) + seq!['.'] + digit_text(ds);
        lemma_read_back(w, rem, u, ds);
    }
}

} // verus!
