use vstd::prelude::*;
use crate::decimal::{
    frac_digits, mantissa_digits, split_exponent,
    split_exponent_spec,
};
use crate::digits::{
    all_digits, digits_less, digits_value, lemma_digits_value_bound, lemma_digits_value_leading_zeros, lemma_digits_value_lower, lemma_digits_value_pad,
    lemma_digits_value_zeros, lemma_pow10_add, lemma_pow10_monotone, lemma_pow10_positive,
    mul_digits, pow10,
};

verus! {

/// `2^n`.
pub open spec fn pow2(n: nat) -> nat
    decreases n,
{
    if n == 0 {
        1
    } else {
        2 * pow2((n - 1) as nat)
    }
}

/// `(2^54 - 1) * 2^970 = 2^1024 - 2^970`: halfway between the largest finite
/// binary64 and `2^1024`.  A correctly rounded decimal-to-binary64
/// conversion (ties to even) yields infinity exactly from this magnitude on.
pub open spec fn binary64_overflow_threshold() -> nat {
    (pow2(54) - 1) as nat * pow2(970)
}

/// `m * 10^k < t`, for any integer `k`.
pub open spec fn decimal_below(m: nat, k: int, t: nat) -> bool {
    if k >= 0 {
        m * pow10(k as nat) < t
    } else {
        m < t * pow10((-k) as nat)
    }
}

/// A JSON number text denotes a magnitude that converts to a finite binary64.
/// Text that is no number at all is not refused here.
pub open spec fn number_finite(text: Seq<char>) -> bool {
    let body = if text.len() > 0 && text[0] == '-' {
        text.drop_first()
    } else {
        text
    };
    match split_exponent_spec(body) {
        Ok((mant, e)) => decimal_below(
            digits_value(mantissa_digits(mant)),
            e - frac_digits(mant),
            binary64_overflow_threshold(),
        ),
        Err(_) => true,
    }
}

pub proof fn lemma_pow2_add(a: nat, b: nat)
    ensures
        pow2(a + b) == pow2(a) * pow2(b),
    decreases b,
{
    if b == 0 {
        assert(pow2(0) == 1);
        assert(a + b == a);
        assert(pow2(a) * 1 == pow2(a));
    } else {
        lemma_pow2_add(a, (b - 1) as nat);
        assert((a + b - 1) as nat == a + (b - 1) as nat);
        assert(pow2(a) * (2 * pow2((b - 1) as nat)) == 2 * (pow2(a) * pow2((b - 1) as nat)))
            by (nonlinear_arith);
    }
}

pub proof fn lemma_pow2_positive(n: nat)
    ensures
        pow2(n) >= 1,
    decreases n,
{
    if n > 0 {
        lemma_pow2_positive((n - 1) as nat);
    }
}

/// `8^n <= 10^n`.
pub proof fn lemma_pow2_3n_le_pow10(n: nat)
    ensures
        pow2(3 * n) <= pow10(n),
    decreases n,
{
    if n > 0 {
        lemma_pow2_3n_le_pow10((n - 1) as nat);
        lemma_pow2_add(3 * (n - 1) as nat, 3);
        assert(pow2(3) == 8) by {
            reveal_with_fuel(pow2, 4);
        }
        assert((3 * (n - 1)) as nat + 3 == 3 * n);
        assert(pow2(3 * (n - 1) as nat) * 8 <= pow10((n - 1) as nat) * 10) by (nonlinear_arith)
            requires
                pow2(3 * (n - 1) as nat) <= pow10((n - 1) as nat),
        ;
    }
}

/// `1000^n <= 1024^n`.
pub proof fn lemma_pow10_3n_le_pow2(n: nat)
    ensures
        pow10(3 * n) <= pow2(10 * n),
    decreases n,
{
    if n > 0 {
        lemma_pow10_3n_le_pow2((n - 1) as nat);
        lemma_pow2_add(10 * (n - 1) as nat, 10);
        lemma_pow10_add(3 * (n - 1) as nat, 3);
        assert(pow2(10) == 1024) by {
            reveal_with_fuel(pow2, 11);
        }
        assert(pow10(3) == 1000) by {
            reveal_with_fuel(pow10, 4);
        }
        assert((10 * (n - 1)) as nat + 10 == 10 * n);
        assert((3 * (n - 1)) as nat + 3 == 3 * n);
        assert(pow10(3 * (n - 1) as nat) * 1000 <= pow2(10 * (n - 1) as nat) * 1024)
            by (nonlinear_arith)
            requires
                pow10(3 * (n - 1) as nat) <= pow2(10 * (n - 1) as nat),
        ;
    }
}

/// `10^300 <= T < 10^342`.
pub proof fn lemma_threshold_bounds()
    ensures
        pow10(300) <= binary64_overflow_threshold(),
        binary64_overflow_threshold() < pow10(342),
{
    let t = binary64_overflow_threshold();
    lemma_pow2_add(54, 970);
    lemma_pow2_add(53, 970);
    lemma_pow2_add(1, 53);
    lemma_pow2_positive(970);
    lemma_pow2_positive(53);
    assert(pow2(1) == 2) by {
        reveal_with_fuel(pow2, 2);
    }
    assert(t >= pow2(1023)) by (nonlinear_arith)
        requires
            t == (pow2(54) - 1) as nat * pow2(970),
            pow2(54) == 2 * pow2(53),
            pow2(53) >= 1,
            pow2(1023) == pow2(53) * pow2(970),
    ;
    assert(t < pow2(1024)) by (nonlinear_arith)
        requires
            t == (pow2(54) - 1) as nat * pow2(970),
            pow2(970) >= 1,
            pow2(54) >= 1,
            pow2(1024) == pow2(54) * pow2(970),
    ;
    lemma_pow10_3n_le_pow2(100);
    lemma_pow2_add(1000, 23);
    lemma_pow2_positive(23);
    assert(pow2(1000) <= pow2(1023)) by (nonlinear_arith)
        requires
            pow2(1023) == pow2(1000) * pow2(23),
            pow2(23) >= 1,
    ;
    lemma_pow2_3n_le_pow10(342);
    lemma_pow2_add(1024, 2);
    lemma_pow2_positive(2);
    assert(pow2(1024) <= pow2(1026)) by (nonlinear_arith)
        requires
            pow2(1026) == pow2(1024) * pow2(2),
            pow2(2) >= 1,
    ;
}

/// A number below `10^n` with at most `lo - n` shift stays below any `t >= 10^lo`.
pub proof fn lemma_magnitude_below(m: nat, n: nat, k: int, t: nat, lo: nat)
    requires
        m < pow10(n),
        pow10(lo) <= t,
        n + k <= lo,
    ensures
        decimal_below(m, k, t),
{
    lemma_pow10_positive(lo);
    if k >= 0 {
        lemma_pow10_add(n, k as nat);
        lemma_pow10_monotone(n + k as nat, lo);
        lemma_pow10_positive(k as nat);
        assert(m * pow10(k as nat) < pow10(n) * pow10(k as nat)) by (nonlinear_arith)
            requires
                m < pow10(n),
                pow10(k as nat) >= 1,
        ;
    } else {
        let j = (-k) as nat;
        lemma_pow10_positive(j);
        if n <= j {
            lemma_pow10_monotone(n, j);
            assert(pow10(j) <= t * pow10(j)) by (nonlinear_arith)
                requires
                    t >= 1,
            ;
        } else {
            let c = (n - j) as nat;
            lemma_pow10_add(c, j);
            lemma_pow10_monotone(c, lo);
            assert(pow10(c) * pow10(j) <= t * pow10(j)) by (nonlinear_arith)
                requires
                    pow10(c) <= t,
            ;
        }
    }
}

/// A number of `n` significant digits shifted past `hi` exceeds any `t < 10^hi`.
pub proof fn lemma_magnitude_above(m: nat, n: nat, k: int, t: nat, hi: nat)
    requires
        n >= 1,
        m >= pow10((n - 1) as nat),
        t < pow10(hi),
        n - 1 + k >= hi,
    ensures
        !decimal_below(m, k, t),
{
    if k >= 0 {
        lemma_pow10_add((n - 1) as nat, k as nat);
        lemma_pow10_monotone(hi, (n - 1 + k) as nat);
        assert(m * pow10(k as nat) >= pow10((n - 1) as nat) * pow10(k as nat))
            by (nonlinear_arith)
            requires
                m >= pow10((n - 1) as nat),
        ;
    } else {
        let j = (-k) as nat;
        let c = (n - 1 - j) as nat;
        lemma_pow10_add(c, j);
        lemma_pow10_monotone(hi, c);
        lemma_pow10_positive(j);
        assert(t * pow10(j) < pow10(c) * pow10(j)) by (nonlinear_arith)
            requires
                t < pow10(c),
                pow10(j) >= 1,
        ;
    }
}

/// The decimal digits of `binary64_overflow_threshold()`.
fn threshold_digits() -> (t: Vec<u8>)
    ensures
        all_digits(t@),
        digits_value(t@) == binary64_overflow_threshold(),
        t@.len() > 0,
        t@[0] != 0,
        t@.len() <= 1000,
{
    let mut d: Vec<u8> = Vec::new();
    d.push(1);
    proof {
        assert(d@.drop_last() =~= Seq::<u8>::empty());
        assert(digits_value(Seq::<u8>::empty()) == 0);
        assert(d@.last() == 1u8);
        assert(digits_value(d@) == 1);
        assert(pow2(54) == 18014398509481984) by {
            reveal_with_fuel(pow2, 55);
        }
        assert(pow2(32) == 4294967296) by {
            reveal_with_fuel(pow2, 33);
        }
        assert(pow2(10) == 1024) by {
            reveal_with_fuel(pow2, 11);
        }
        assert(pow2(0) == 1);
    }
    d = mul_digits(&d, 18014398509481983);
    let ghost base = (pow2(54) - 1) as nat;
    let mut i: usize = 0;
    while i < 30
        invariant
            i <= 30,
            all_digits(d@),
            digits_value(d@) == base * pow2((32 * i) as nat),
            d@.len() <= 21 + 20 * i,
            d@.len() > 0,
            d@[0] != 0,
            pow2(32) == 4294967296,
        decreases 30 - i,
    {
        d = mul_digits(&d, 4294967296);
        proof {
            lemma_pow2_add((32 * i) as nat, 32);
            assert((32 * i) as nat + 32 == (32 * (i + 1)) as nat);
            assert(base * pow2((32 * i) as nat) * 4294967296 == base * (pow2((32 * i) as nat)
                * pow2(32))) by (nonlinear_arith)
                requires
                    pow2(32) == 4294967296,
            ;
        }
        i = i + 1;
    }
    d = mul_digits(&d, 1024);
    proof {
        lemma_pow2_add(960, 10);
        assert(base * pow2(960) * 1024 == base * (pow2(960) * pow2(10))) by (nonlinear_arith)
            requires
                pow2(10) == 1024,
        ;
        lemma_pow2_positive(970);
        assert(digits_value(d@) >= 1) by (nonlinear_arith)
            requires
                digits_value(d@) == base * pow2(970),
                base >= 1,
                pow2(970) >= 1,
        ;
        if d@.len() == 0 {
            assert(digits_value(d@) == 0);
        }
    }
    d
}

/// The digits of the mantissa `v[lo..hi]` and how many follow its point.
pub(crate) fn mantissa_parts(v: &Vec<char>, lo: usize, hi: usize) -> (r: (Vec<u8>, usize))
    requires
        lo <= hi <= v@.len(),
    ensures
        r.0@ == mantissa_digits(v@.subrange(lo as int, hi as int)),
        r.1 == frac_digits(v@.subrange(lo as int, hi as int)),
        all_digits(r.0@),
        r.0@.len() <= hi - lo,
{
    let ghost m = v@.subrange(lo as int, hi as int);
    let mut digits: Vec<u8> = Vec::new();
    let mut frac: usize = 0;
    let mut seen_dot = false;
    let mut i = lo;
    assert(m.take(0) =~= Seq::<char>::empty());
    while i < hi
        invariant
            lo <= i <= hi <= v@.len(),
            m == v@.subrange(lo as int, hi as int),
            digits@ == mantissa_digits(m.take(i - lo)),
            all_digits(digits@),
            digits@.len() <= i - lo,
            frac == frac_digits(m.take(i - lo)),
            frac <= i - lo,
            seen_dot == m.take(i - lo).contains('.'),
        decreases hi - i,
    {
        let c = v[i];
        let ghost p = m.take(i - lo);
        let ghost q = m.take(i - lo + 1);
        assert(q.drop_last() =~= p);
        assert(q.last() == c);
        proof {
            assert(q.contains('.') == (p.contains('.') || c == '.')) by {
                if q.contains('.') {
                    let w = choose|w: int| 0 <= w < q.len() && q[w] == '.';
                    if w < p.len() {
                        assert(p[w] == '.');
                    }
                }
                if p.contains('.') {
                    let w = choose|w: int| 0 <= w < p.len() && p[w] == '.';
                    assert(q[w] == '.');
                }
                if c == '.' {
                    assert(q[q.len() - 1] == '.');
                }
            }
        }
        if '0' <= c && c <= '9' {
            digits.push((c as u32 - '0' as u32) as u8);
            if seen_dot {
                frac = frac + 1;
            }
        } else if c == '.' {
            seen_dot = true;
        }
        i = i + 1;
    }
    assert(m.take(hi - lo) =~= m);
    (digits, frac)
}

/// Whether the number text `cs[start..end]` converts to a finite binary64.
pub fn number_is_finite(cs: &Vec<char>, start: usize, end: usize) -> (b: bool)
    requires
        start <= end <= cs@.len(),
    ensures
        b == number_finite(cs@.subrange(start as int, end as int)),
{
    let ghost text = cs@.subrange(start as int, end as int);
    let mut lo = start;
    if lo < end && cs[lo] == '-' {
        lo = lo + 1;
    }
    let ghost body = cs@.subrange(lo as int, end as int);
    assert(text.len() > 0 && text[0] == '-' ==> body =~= text.drop_first());
    assert(!(text.len() > 0 && text[0] == '-') ==> body =~= text);
    let (mid, e) = match split_exponent(cs, lo, end) {
        Ok(r) => r,
        Err(_) => {
            return true;
        },
    };
    let ghost e_true = split_exponent_spec(body)->Ok_0.1;
    let ghost mant = cs@.subrange(lo as int, mid as int);
    let (ds, frac) = mantissa_parts(cs, lo, mid);
    let ghost mm = digits_value(ds@);
    let ghost k = e_true - frac;
    let ghost t = binary64_overflow_threshold();
    assert(number_finite(text) == decimal_below(mm, k, t));
    let mut first_nonzero: usize = 0;
    while first_nonzero < ds.len() && ds[first_nonzero] == 0
        invariant
            first_nonzero <= ds@.len(),
            forall|j: int| 0 <= j < first_nonzero ==> ds@[j] == 0,
        decreases ds@.len() - first_nonzero,
    {
        first_nonzero = first_nonzero + 1;
    }
    if first_nonzero == ds.len() {
        proof {
            lemma_digits_value_zeros(ds@);
            lemma_threshold_bounds();
            lemma_pow10_positive(300);
            lemma_pow10_positive((-k) as nat);
            assert(t * pow10((-k) as nat) > 0) by (nonlinear_arith)
                requires
                    t >= 1,
                    pow10((-k) as nat) >= 1,
            ;
            assert(0 * pow10(k as nat) == 0);
        }
        return true;
    }
    let mut sig: Vec<u8> = Vec::new();
    let mut j = first_nonzero;
    while j < ds.len()
        invariant
            first_nonzero <= j <= ds@.len(),
            sig@ == ds@.subrange(first_nonzero as int, j as int),
        decreases ds@.len() - j,
    {
        sig.push(ds[j]);
        j = j + 1;
    }
    let n = sig.len();
    proof {
        assert(sig@ =~= ds@.skip(first_nonzero as int));
        lemma_digits_value_leading_zeros(ds@, first_nonzero as int);
        assert(all_digits(sig@));
        lemma_digits_value_lower(sig@);
        lemma_digits_value_bound(sig@);
        lemma_threshold_bounds();
    }
    let big: i128 = 1267650600228229401496703205376;
    if e > big {
        proof {
            assert(e_true >= e);
            lemma_magnitude_above(mm, n as nat, k, t, 342);
        }
        return false;
    }
    if e < -big {
        proof {
            assert(e_true <= e);
            lemma_magnitude_below(mm, n as nat, k, t, 300);
        }
        return true;
    }
    let ks: i128 = n as i128 + e - frac as i128;
    proof {
        assert(e_true == e);
    }
    if ks <= 300 {
        proof {
            lemma_magnitude_below(mm, n as nat, k, t, 300);
        }
        return true;
    }
    if ks >= 343 {
        proof {
            lemma_magnitude_above(mm, n as nat, k, t, 342);
        }
        return false;
    }
    let tds = threshold_digits();
    let len = tds.len();
    proof {
        lemma_digits_value_lower(tds@);
        lemma_digits_value_bound(tds@);
    }
    if ks < len as i128 {
        proof {
            lemma_magnitude_below(mm, n as nat, k, t, (len - 1) as nat);
        }
        return true;
    }
    if ks > len as i128 {
        proof {
            lemma_magnitude_above(mm, n as nat, k, t, len as nat);
        }
        return false;
    }
    if n <= len {
        let mut a = sig;
        let mut z: usize = 0;
        let ghost s0 = a@;
        while z < len - n
            invariant
                z <= len - n,
                n <= len,
                a@ == s0 + Seq::new(z as nat, |i: int| 0u8),
            decreases len - n - z,
        {
            a.push(0);
            z = z + 1;
            assert(a@ =~= s0 + Seq::new(z as nat, |i: int| 0u8));
        }
        proof {
            lemma_digits_value_pad(s0, Seq::new((len - n) as nat, |i: int| 0u8));
            assert(all_digits(a@));
            assert(k == len - n);
        }
        digits_less(&a, &tds)
    } else {
        let mut b = tds;
        let mut z: usize = 0;
        let ghost t0 = b@;
        while z < n - len
            invariant
                z <= n - len,
                len < n,
                b@ == t0 + Seq::new(z as nat, |i: int| 0u8),
            decreases n - len - z,
        {
            b.push(0);
            z = z + 1;
            assert(b@ =~= t0 + Seq::new(z as nat, |i: int| 0u8));
        }
        proof {
            lemma_digits_value_pad(t0, Seq::new((n - len) as nat, |i: int| 0u8));
            assert(all_digits(b@));
            assert(k == len - n);
            assert((-k) as nat == (n - len) as nat);
        }
        digits_less(&sig, &b)
    }
}

} // verus!
