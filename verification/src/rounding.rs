use vstd::prelude::*;
use crate::decimal::{frac_digits, mantissa_digits, split_exponent, split_exponent_spec};
use crate::digits::{
    all_digits, digits_less, digits_value, lemma_digits_value_bound, lemma_digits_value_concat,
    lemma_digits_value_leading_zeros, lemma_digits_value_lower, lemma_digits_value_pad,
    lemma_digits_value_zeros, lemma_pow10_add, lemma_pow10_monotone, lemma_pow10_positive,
    mul_digits, pow10,
};
use crate::number::mantissa_parts;
use crate::ratio::{lemma_pow5_add, lemma_pow5_positive, pow5};

verus! {

/// `m * 10^k <= t`, for any integer `k`.
pub open spec fn decimal_at_most(m: nat, k: int, t: nat) -> bool {
    if k >= 0 {
        m * pow10(k as nat) <= t
    } else {
        m <= t * pow10((-k) as nat)
    }
}

/// The number text starts with a minus sign.
pub open spec fn number_negative(t: Seq<char>) -> bool {
    t.len() > 0 && t[0] == '-'
}

/// The number text without its sign.
pub open spec fn number_body(t: Seq<char>) -> Seq<char> {
    if number_negative(t) {
        t.drop_first()
    } else {
        t
    }
}

/// The magnitude `q` of a number text satisfies `q * 10^s <= target`.
pub open spec fn scaled_at_most(t: Seq<char>, s: nat, target: nat) -> bool {
    match split_exponent_spec(number_body(t)) {
        Ok((mant, e)) => decimal_at_most(
            digits_value(mantissa_digits(mant)),
            e - frac_digits(mant) + s,
            target,
        ),
        Err(_) => false,
    }
}

/// The binary64 nearest to the number is positive.  Round to nearest, ties
/// to even, gives zero exactly up to `2^-1075 = 5^1075 / 10^1075`.
pub open spec fn rounds_positive(t: Seq<char>) -> bool {
    !number_negative(t) && !scaled_at_most(t, 1075, pow5(1075))
}

/// The binary64 nearest to the number is not below zero: it is positive,
/// zero, or a negative number small enough to round to `-0`.
pub open spec fn rounds_nonnegative(t: Seq<char>) -> bool {
    !number_negative(t) || scaled_at_most(t, 1075, pow5(1075))
}

/// The binary64 nearest to the number is at most one.  Between `1` and the
/// next binary64 `1 + 2^-52`, the tie `1 + 2^-53` rounds to `1`.
pub open spec fn rounds_at_most_one(t: Seq<char>) -> bool {
    number_negative(t) || scaled_at_most(t, 53, pow10(53) + pow5(53))
}

/// A magnitude of `n` significant digits lies strictly above any target
/// below `10^l` once scaled to at least `10^l`.
pub proof fn lemma_at_most_above(m: nat, n: nat, j: int, t: nat, l: nat)
    requires
        n >= 1,
        m >= pow10((n - 1) as nat),
        t < pow10(l),
        n - 1 + j >= l,
    ensures
        !decimal_at_most(m, j, t),
{
    if j >= 0 {
        lemma_pow10_add((n - 1) as nat, j as nat);
        lemma_pow10_monotone(l, (n - 1 + j) as nat);
        assert(m * pow10(j as nat) >= pow10((n - 1) as nat) * pow10(j as nat)) by (nonlinear_arith)
            requires
                m >= pow10((n - 1) as nat),
        ;
    } else {
        let i = (-j) as nat;
        let c = (n - 1 - i) as nat;
        lemma_pow10_add(c, i);
        lemma_pow10_monotone(l, c);
        lemma_pow10_positive(i);
        assert(t * pow10(i) < pow10(c) * pow10(i)) by (nonlinear_arith)
            requires
                t < pow10(c),
                pow10(i) >= 1,
        ;
    }
}

/// A magnitude below `10^n`, scaled no further than `10^l`, is at most any
/// target of at least `10^l`.
pub proof fn lemma_at_most_below(m: nat, n: nat, j: int, t: nat, l: nat)
    requires
        m < pow10(n),
        pow10(l) <= t,
        n + j <= l,
    ensures
        decimal_at_most(m, j, t),
{
    if j >= 0 {
        lemma_pow10_add(n, j as nat);
        lemma_pow10_monotone(n + j as nat, l);
        lemma_pow10_positive(j as nat);
        assert(m * pow10(j as nat) <= pow10(n) * pow10(j as nat)) by (nonlinear_arith)
            requires
                m < pow10(n),
        ;
    } else {
        let i = (-j) as nat;
        lemma_pow10_positive(i);
        lemma_pow10_positive(l);
        if n <= i {
            lemma_pow10_monotone(n, i);
            assert(pow10(i) <= t * pow10(i)) by (nonlinear_arith)
                requires
                    t >= 1,
            ;
        } else {
            let c = (n - i) as nat;
            lemma_pow10_add(c, i);
            lemma_pow10_monotone(c, l);
            assert(pow10(c) * pow10(i) <= t * pow10(i)) by (nonlinear_arith)
                requires
                    pow10(c) <= t,
            ;
        }
    }
}

/// `v` followed by `z` zero digits.
fn pad_zeros(v: &Vec<u8>, z: usize) -> (out: Vec<u8>)
    requires
        all_digits(v@),
    ensures
        out@ == v@ + Seq::new(z as nat, |i: int| 0u8),
        all_digits(out@),
        digits_value(out@) == digits_value(v@) * pow10(z as nat),
{
    let mut out: Vec<u8> = Vec::new();
    let mut i: usize = 0;
    while i < v.len()
        invariant
            i <= v@.len(),
            out@ == v@.take(i as int),
        decreases v@.len() - i,
    {
        out.push(v[i]);
        assert(v@.take(i as int + 1) =~= v@.take(i as int).push(v@[i as int]));
        i = i + 1;
    }
    assert(v@.take(v@.len() as int) =~= v@);
    let mut k: usize = 0;
    assert(out@ =~= v@ + Seq::new(0, |i: int| 0u8));
    while k < z
        invariant
            k <= z,
            out@ == v@ + Seq::new(k as nat, |i: int| 0u8),
        decreases z - k,
    {
        out.push(0);
        k = k + 1;
        assert(out@ =~= v@ + Seq::new(k as nat, |i: int| 0u8));
    }
    proof {
        lemma_digits_value_pad(v@, Seq::new(z as nat, |i: int| 0u8));
    }
    out
}

/// Whether the magnitude `q` of the number text `cs[lo..]` (its sign already
/// skipped) satisfies `q * 10^s <= t`, where `tds` spells `t`.
fn magnitude_at_most(cs: &Vec<char>, lo: usize, s: usize, tds: &Vec<u8>) -> (b: bool)
    requires
        lo <= cs@.len(),
        s <= 2000,
        all_digits(tds@),
        0 < tds@.len() <= 2000,
        tds@[0] != 0,
    ensures
        b == (match split_exponent_spec(cs@.skip(lo as int)) {
            Ok((mant, e)) => decimal_at_most(
                digits_value(mantissa_digits(mant)),
                e - frac_digits(mant) + s,
                digits_value(tds@),
            ),
            Err(_) => false,
        }),
{
    let end = cs.len();
    let ghost body = cs@.skip(lo as int);
    assert(cs@.subrange(lo as int, end as int) =~= body);
    let (mid, e) = match split_exponent(cs, lo, end) {
        Ok(r) => r,
        Err(_) => {
            return false;
        },
    };
    let ghost e_true = split_exponent_spec(body)->Ok_0.1;
    let (ds, frac) = mantissa_parts(cs, lo, mid);
    let ghost mm = digits_value(ds@);
    let ghost k = e_true - frac + s;
    let ghost t = digits_value(tds@);
    let l = tds.len();
    proof {
        lemma_digits_value_lower(tds@);
        lemma_digits_value_bound(tds@);
    }
    let mut first_nonzero: usize = 0;
    while first_nonzero < ds.len() && ds[first_nonzero] == 0
        invariant
            first_nonzero <= ds@.len(),
            forall|j: int| 0 <= j < first_nonzero ==> ds@[j] == 0,
        decreases ds@.len() - first_nonzero,
    {
        first_nonzero = first_nonzero + 1;
    }
    if first_nonzero == ds.len() {
        proof {
            lemma_digits_value_zeros(ds@);
            lemma_pow10_positive((-k) as nat);
            assert(0 * pow10(k as nat) == 0);
            assert(0 <= t * pow10((-k) as nat)) by (nonlinear_arith);
        }
        return true;
    }
    let mut sig: Vec<u8> = Vec::new();
    let mut j = first_nonzero;
    while j < ds.len()
        invariant
            first_nonzero <= j <= ds@.len(),
            sig@ == ds@.subrange(first_nonzero as int, j as int),
        decreases ds@.len() - j,
    {
        sig.push(ds[j]);
        j = j + 1;
    }
    let n = sig.len();
    proof {
        assert(sig@ =~= ds@.skip(first_nonzero as int));
        lemma_digits_value_leading_zeros(ds@, first_nonzero as int);
        assert(all_digits(sig@));
        lemma_digits_value_lower(sig@);
        lemma_digits_value_bound(sig@);
    }
    let big: i128 = 1267650600228229401496703205376;
    if e > big {
        proof {
            assert(e_true >= e);
            lemma_at_most_above(mm, n as nat, k, t, l as nat);
        }
        return false;
    }
    if e < -big {
        proof {
            assert(e_true <= e);
            lemma_at_most_below(mm, n as nat, k, t, (l - 1) as nat);
        }
        return true;
    }
    proof {
        assert(e_true == e);
    }
    let js: i128 = n as i128 + e - frac as i128 + s as i128;
    if js < l as i128 {
        proof {
            lemma_at_most_below(mm, n as nat, k, t, (l - 1) as nat);
        }
        return true;
    }
    if js > l as i128 {
        proof {
            lemma_at_most_above(mm, n as nat, k, t, l as nat);
        }
        return false;
    }
    if n <= l {
        let a = pad_zeros(&sig, l - n);
        proof {
            assert(k == l - n);
            assert(decimal_at_most(mm, k, t) == (digits_value(a@) <= t));
        }
        !digits_less(tds, &a)
    } else {
        let b = pad_zeros(tds, n - l);
        proof {
            assert(k == l - n);
            assert((-k) as nat == (n - l) as nat);
        }
        !digits_less(&b, &sig)
    }
}

/// The decimal digits of `5^1075`.
fn half_subnormal_digits() -> (t: Vec<u8>)
    ensures
        all_digits(t@),
        digits_value(t@) == pow5(1075),
        0 < t@.len() <= 2000,
        t@[0] != 0,
{
    let mut d: Vec<u8> = Vec::new();
    d.push(1);
    proof {
        assert(d@.drop_last() =~= Seq::<u8>::empty());
        assert(digits_value(Seq::<u8>::empty()) == 0);
        assert(digits_value(d@) == 1);
        assert(pow5(27) == 7450580596923828125) by {
            reveal_with_fuel(pow5, 28);
        }
        assert(pow5(22) == 2384185791015625) by {
            reveal_with_fuel(pow5, 23);
        }
        assert(pow5(0) == 1);
    }
    let mut i: usize = 0;
    while i < 39
        invariant
            i <= 39,
            all_digits(d@),
            digits_value(d@) == pow5((27 * i) as nat),
            0 < d@.len() <= 1 + 20 * i,
            d@[0] != 0,
            pow5(27) == 7450580596923828125,
        decreases 39 - i,
    {
        d = mul_digits(&d, 7450580596923828125);
        proof {
            lemma_pow5_add((27 * i) as nat, 27);
            assert((27 * i) as nat + 27 == (27 * (i + 1)) as nat);
        }
        i = i + 1;
    }
    d = mul_digits(&d, 2384185791015625);
    proof {
        lemma_pow5_add(1053, 22);
    }
    d
}

/// The powers that the digits of `10^53 + 5^53` are built from.
proof fn lemma_ulp_constants()
    ensures
        pow5(27) == 7450580596923828125,
        pow5(26) == 1490116119384765625,
        pow10(53) == 100000000000000000000000000000000000000000000000000000nat,
        pow10(39) == 1000000000000000000000000000000000000000nat,
{
    assert(pow5(27) == 7450580596923828125) by {
        reveal_with_fuel(pow5, 28);
    }
    assert(pow5(26) == 1490116119384765625) by {
        reveal_with_fuel(pow5, 27);
    }
    assert(pow10(53) == 100000000000000000000000000000000000000000000000000000nat) by {
        reveal_with_fuel(pow10, 54);
    }
    assert(pow10(39) == 1000000000000000000000000000000000000000nat) by {
        reveal_with_fuel(pow10, 40);
    }
}

/// The decimal digits of `10^53 + 5^53`.
#[verifier::spinoff_prover]
fn one_and_half_ulp_digits() -> (t: Vec<u8>)
    ensures
        all_digits(t@),
        digits_value(t@) == pow10(53) + pow5(53),
        0 < t@.len() <= 2000,
        t@[0] != 0,
{
    let mut d: Vec<u8> = Vec::new();
    d.push(1);
    proof {
        assert(d@.drop_last() =~= Seq::<u8>::empty());
        assert(digits_value(Seq::<u8>::empty()) == 0);
        assert(digits_value(d@) == 1);
        lemma_ulp_constants();
    }
    d = mul_digits(&d, 7450580596923828125);
    d = mul_digits(&d, 1490116119384765625);
    proof {
        lemma_pow5_add(27, 26);
        assert(pow5(53) == 7450580596923828125 * 1490116119384765625) by (nonlinear_arith)
            requires
                pow5(53) == pow5(27) * pow5(26),
                pow5(27) == 7450580596923828125,
                pow5(26) == 1490116119384765625,
        ;
        lemma_digits_value_bound(d@);
    }
    // 5^53 < 10^39, so it fits below the leading one with zeros between.
    let len = d.len();
    proof {
        if len > 39 {
            lemma_digits_value_lower(d@);
            lemma_pow10_monotone(39, (len - 1) as nat);
        }
    }
    let mut out: Vec<u8> = Vec::new();
    out.push(1);
    let ghost one = out@;
    proof {
        assert(one.drop_last() =~= Seq::<u8>::empty());
        assert(digits_value(one) == 1);
    }
    let mut k: usize = 0;
    while k < 53 - len
        invariant
            len <= 39,
            k <= 53 - len,
            out@ == one + Seq::new(k as nat, |i: int| 0u8),
        decreases 53 - len - k,
    {
        out.push(0);
        k = k + 1;
        assert(out@ =~= one + Seq::new(k as nat, |i: int| 0u8));
    }
    let ghost head = out@;
    let mut j: usize = 0;
    while j < len
        invariant
            j <= len,
            len == d@.len(),
            out@ == head + d@.take(j as int),
        decreases len - j,
    {
        out.push(d[j]);
        assert(d@.take(j as int + 1) =~= d@.take(j as int).push(d@[j as int]));
        assert(out@ =~= head + d@.take(j as int + 1));
        j = j + 1;
    }
    proof {
        assert(d@.take(len as int) =~= d@);
        lemma_digits_value_pad(one, Seq::new((53 - len) as nat, |i: int| 0u8));
        lemma_digits_value_concat(head, d@);
        lemma_pow10_add((53 - len) as nat, len as nat);
        assert(all_digits(out@)) by {
            assert forall|i: int| 0 <= i < out@.len() implies #[trigger] out@[i] <= 9 by {
                if i >= head.len() {
                    assert(out@[i] == d@[i - head.len()]);
                }
            }
        }
        assert(out@[0] == 1);
    }
    out
}

/// Sign and magnitude of a number text as the three tests read it.
fn split_sign(cs: &Vec<char>) -> (lo: usize)
    ensures
        lo <= cs@.len(),
        cs@.skip(lo as int) == number_body(cs@),
        lo == 1 <==> number_negative(cs@),
{
    if cs.len() > 0 && cs[0] == '-' {
        assert(cs@.skip(1) =~= cs@.drop_first());
        1
    } else {
        assert(cs@.skip(0) =~= cs@);
        0
    }
}

/// Whether the binary64 nearest to the number text is positive.
pub fn number_rounds_positive(cs: &Vec<char>) -> (b: bool)
    ensures
        b == rounds_positive(cs@),
{
    let lo = split_sign(cs);
    if lo == 1 {
        return false;
    }
    let t = half_subnormal_digits();
    !magnitude_at_most(cs, lo, 1075, &t)
}

/// Whether the binary64 nearest to the number text is not below zero.
pub fn number_rounds_nonnegative(cs: &Vec<char>) -> (b: bool)
    ensures
        b == rounds_nonnegative(cs@),
{
    let lo = split_sign(cs);
    if lo == 0 {
        return true;
    }
    let t = half_subnormal_digits();
    magnitude_at_most(cs, lo, 1075, &t)
}

/// Whether the binary64 nearest to the number text is at most one.
pub fn number_rounds_at_most_one(cs: &Vec<char>) -> (b: bool)
    ensures
        b == rounds_at_most_one(cs@),
{
    let lo = split_sign(cs);
    if lo == 1 {
        return true;
    }
    let t = one_and_half_ulp_digits();
    magnitude_at_most(cs, lo, 53, &t)
}

} // verus!
