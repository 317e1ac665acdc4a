use vstd::prelude::*;

verus! {

/// `10^n`.
pub open spec fn pow10(n: nat) -> nat
    decreases n,
{
    if n == 0 {
        1
    } else {
        10 * pow10((n - 1) as nat)
    }
}

/// Every element is a decimal digit value.
pub open spec fn all_digits(s: Seq<u8>) -> bool {
    forall|i: int| 0 <= i < s.len() ==> #[trigger] s[i] <= 9
}

/// The number that a big-endian sequence of decimal digits denotes.
pub open spec fn digits_value(s: Seq<u8>) -> nat
    decreases s.len(),
{
    if s.len() == 0 {
        0
    } else {
        digits_value(s.drop_last()) * 10 + s.last() as nat
    }
}

/// `n * 10^k` rounded down, for any integer `k`.
pub open spec fn floor_scaled(n: nat, k: int) -> nat {
    if k >= 0 {
        n * pow10(k as nat)
    } else {
        n / pow10((-k) as nat)
    }
}

pub proof fn lemma_pow10_positive(n: nat)
    ensures
        pow10(n) >= 1,
    decreases n,
{
    if n > 0 {
        lemma_pow10_positive((n - 1) as nat);
    }
}

pub proof fn lemma_pow10_add(a: nat, b: nat)
    ensures
        pow10(a + b) == pow10(a) * pow10(b),
    decreases b,
{
    if b == 0 {
        assert(pow10(0) == 1);
        assert(a + b == a);
        assert(pow10(a) * 1 == pow10(a));
    } else {
        lemma_pow10_add(a, (b - 1) as nat);
        assert((a + b - 1) as nat == a + (b - 1) as nat);
        assert(pow10(a + b) == 10 * pow10((a + b - 1) as nat));
        assert(pow10(a) * pow10(b) == pow10(a) * (10 * pow10((b - 1) as nat)));
        assert(pow10(a) * (10 * pow10((b - 1) as nat)) == 10 * (pow10(a) * pow10(
            (b - 1) as nat,
        ))) by (nonlinear_arith);
    }
}

pub proof fn lemma_pow10_monotone(a: nat, b: nat)
    requires
        a <= b,
    ensures
        pow10(a) <= pow10(b),
    decreases b,
{
    if a < b {
        lemma_pow10_monotone(a, (b - 1) as nat);
        lemma_pow10_positive((b - 1) as nat);
    }
}

/// `10^n` is larger than `n`, so it outgrows every index.
pub proof fn lemma_pow10_exceeds(n: nat)
    ensures
        pow10(n) > n,
    decreases n,
{
    if n > 0 {
        lemma_pow10_exceeds((n - 1) as nat);
    }
}

pub proof fn lemma_digits_value_push(s: Seq<u8>, d: u8)
    ensures
        digits_value(s.push(d)) == digits_value(s) * 10 + d,
{
    assert(s.push(d).drop_last() =~= s);
}

/// A digit sequence of length `n` denotes less than `10^n`.
pub proof fn lemma_digits_value_bound(s: Seq<u8>)
    requires
        all_digits(s),
    ensures
        digits_value(s) < pow10(s.len()),
    decreases s.len(),
{
    if s.len() > 0 {
        let t = s.drop_last();
        assert(all_digits(t));
        lemma_digits_value_bound(t);
        assert(s.last() <= 9);
        assert(digits_value(t) * 10 + s.last() < pow10(s.len())) by (nonlinear_arith)
            requires
                digits_value(t) < pow10(t.len()),
                s.last() <= 9,
                pow10(s.len()) == 10 * pow10(t.len()),
        ;
    }
}

/// Concatenation shifts the first part by the length of the second.
pub proof fn lemma_digits_value_concat(a: Seq<u8>, b: Seq<u8>)
    ensures
        digits_value(a + b) == digits_value(a) * pow10(b.len()) + digits_value(b),
    decreases b.len(),
{
    if b.len() == 0 {
        assert(a + b =~= a);
        assert(pow10(0) == 1);
        assert(digits_value(a) * 1 == digits_value(a));
    } else {
        let b0 = b.drop_last();
        assert((a + b).drop_last() =~= a + b0);
        assert((a + b).last() == b.last());
        lemma_digits_value_concat(a, b0);
        assert(digits_value(a + b) == (digits_value(a) * pow10(b0.len()) + digits_value(b0)) * 10
            + b.last());
        assert(pow10(b.len()) == 10 * pow10(b0.len()));
        assert((digits_value(a) * pow10(b0.len()) + digits_value(b0)) * 10 + b.last()
            == digits_value(a) * (10 * pow10(b0.len())) + (digits_value(b0) * 10 + b.last()))
            by (nonlinear_arith);
    }
}

/// A sequence whose first digit is nonzero denotes at least `10^(n-1)`.
pub proof fn lemma_digits_value_lower(s: Seq<u8>)
    requires
        s.len() > 0,
        s[0] != 0,
    ensures
        digits_value(s) >= pow10((s.len() - 1) as nat),
{
    let head = s.take(1);
    let tail = s.skip(1);
    assert(head + tail =~= s);
    lemma_digits_value_concat(head, tail);
    assert(head.drop_last() =~= Seq::<u8>::empty());
    assert(head.last() == s[0]);
    assert(digits_value(head.drop_last()) == 0);
    assert(digits_value(head) == digits_value(head.drop_last()) * 10 + head.last());
    assert(digits_value(head) == s[0] as nat);
    lemma_pow10_positive(tail.len());
    assert(digits_value(head) * pow10(tail.len()) >= pow10(tail.len())) by (nonlinear_arith)
        requires
            digits_value(head) >= 1,
    ;
}

/// Leading zero digits do not change the value.
pub proof fn lemma_digits_value_leading_zeros(s: Seq<u8>, k: int)
    requires
        0 <= k <= s.len(),
        forall|i: int| 0 <= i < k ==> s[i] == 0,
    ensures
        digits_value(s) == digits_value(s.skip(k)),
{
    if k == 0 {
        assert(s.skip(0) =~= s);
    } else {
        let z = s.take(k);
        assert(z + s.skip(k) =~= s);
        lemma_digits_value_concat(z, s.skip(k));
        assert forall|i: int| 0 <= i < z.len() implies z[i] == 0 by {
            assert(z[i] == s[i]);
        }
        lemma_digits_value_zeros(z);
        assert(digits_value(z) == 0);
        assert(digits_value(z) * pow10(s.skip(k).len()) == 0) by (nonlinear_arith)
            requires
                digits_value(z) == 0,
        ;
        assert(digits_value(s) == digits_value(z + s.skip(k)));
    }
}

pub proof fn lemma_digits_value_zeros(z: Seq<u8>)
    requires
        forall|i: int| 0 <= i < z.len() ==> z[i] == 0,
    ensures
        digits_value(z) == 0,
    decreases z.len(),
{
    if z.len() > 0 {
        lemma_digits_value_zeros(z.drop_last());
    }
}

/// Dropping the last `k` digits is division by `10^k`.
pub proof fn lemma_digits_value_prefix(s: Seq<u8>, k: nat)
    requires
        k <= s.len(),
        all_digits(s),
    ensures
        digits_value(s.take(s.len() - k)) == digits_value(s) / pow10(k),
{
    let a = s.take(s.len() - k);
    let b = s.skip(s.len() - k);
    assert(a + b =~= s);
    assert(all_digits(b));
    lemma_digits_value_concat(a, b);
    lemma_digits_value_bound(b);
    lemma_pow10_positive(k);
    let q = digits_value(a);
    let r = digits_value(b);
    let p = pow10(k);
    assert(b.len() == k);
    vstd::arithmetic::div_mod::lemma_fundamental_div_mod_converse(
        (q * p + r) as int,
        p as int,
        q as int,
        r as int,
    );
}

/// A digit in front of a sequence contributes `d * 10^n`.
pub proof fn lemma_digits_value_cons(d: u8, s: Seq<u8>)
    ensures
        digits_value(seq![d] + s) == d * pow10(s.len()) + digits_value(s),
{
    lemma_digits_value_concat(seq![d], s);
    let one = seq![d];
    assert(one.drop_last() =~= Seq::<u8>::empty());
    assert(digits_value(one.drop_last()) == 0);
    assert(digits_value(one) == digits_value(one.drop_last()) * 10 + one.last());
}

/// A prefix never denotes more than the whole sequence.
pub proof fn lemma_digits_value_take_le(s: Seq<u8>, i: int)
    requires
        0 <= i <= s.len(),
    ensures
        digits_value(s.take(i)) <= digits_value(s),
{
    let a = s.take(i);
    let b = s.skip(i);
    assert(a + b =~= s);
    lemma_digits_value_concat(a, b);
    lemma_pow10_positive(b.len());
    assert(digits_value(a) * pow10(b.len()) >= digits_value(a)) by (nonlinear_arith)
        requires
            pow10(b.len()) >= 1,
    ;
}

/// Appending `z` zero digits multiplies the value by `10^z`.
pub proof fn lemma_digits_value_pad(a: Seq<u8>, z: Seq<u8>)
    requires
        forall|i: int| 0 <= i < z.len() ==> z[i] == 0,
    ensures
        digits_value(a + z) == digits_value(a) * pow10(z.len()),
{
    lemma_digits_value_concat(a, z);
    lemma_digits_value_zeros(z);
}

/// Equal-length digit sequences compare like their first differing digit.
pub proof fn lemma_digits_lex_less(a: Seq<u8>, b: Seq<u8>, i: int)
    requires
        a.len() == b.len(),
        all_digits(a),
        all_digits(b),
        0 <= i < a.len(),
        a.take(i) == b.take(i),
        a[i] < b[i],
    ensures
        digits_value(a) < digits_value(b),
{
    let r = (a.len() - i - 1) as nat;
    let pa = a.take(i + 1);
    let pb = b.take(i + 1);
    assert(pa + a.skip(i + 1) =~= a);
    assert(pb + b.skip(i + 1) =~= b);
    assert(pa =~= a.take(i).push(a[i]));
    assert(pb =~= b.take(i).push(b[i]));
    lemma_digits_value_concat(pa, a.skip(i + 1));
    lemma_digits_value_concat(pb, b.skip(i + 1));
    lemma_digits_value_push(a.take(i), a[i]);
    lemma_digits_value_push(b.take(i), b[i]);
    assert(all_digits(a.skip(i + 1)));
    lemma_digits_value_bound(a.skip(i + 1));
    let pre = digits_value(a.take(i));
    let p10 = pow10(r);
    assert(a.skip(i + 1).len() == r);
    assert(b.skip(i + 1).len() == r);
    assert((pre * 10 + a[i]) * p10 + digits_value(a.skip(i + 1)) < (pre * 10 + b[i]) * p10
        + digits_value(b.skip(i + 1))) by (nonlinear_arith)
        requires
            digits_value(a.skip(i + 1)) < p10,
            a[i] < b[i],
            digits_value(b.skip(i + 1)) >= 0,
    ;
}

/// Whether one digit sequence denotes less than another of the same length.
pub fn digits_less(a: &Vec<u8>, b: &Vec<u8>) -> (r: bool)
    requires
        a@.len() == b@.len(),
        all_digits(a@),
        all_digits(b@),
    ensures
        r == (digits_value(a@) < digits_value(b@)),
{
    let mut i: usize = 0;
    while i < a.len()
        invariant
            a@.len() == b@.len(),
            all_digits(a@),
            all_digits(b@),
            i <= a@.len(),
            a@.take(i as int) == b@.take(i as int),
        decreases a@.len() - i,
    {
        if a[i] != b[i] {
            proof {
                if a[i as int] < b[i as int] {
                    lemma_digits_lex_less(a@, b@, i as int);
                } else {
                    lemma_digits_lex_less(b@, a@, i as int);
                }
            }
            return a[i] < b[i];
        }
        assert(a@.take(i as int + 1) =~= a@.take(i as int).push(a@[i as int]));
        assert(b@.take(i as int + 1) =~= b@.take(i as int).push(b@[i as int]));
        i = i + 1;
    }
    assert(a@.take(a@.len() as int) =~= a@);
    assert(b@.take(b@.len() as int) =~= b@);
    false
}

/// Multiplies a big-endian digit sequence by `multiplier`, exactly.  The
/// product keeps the width of the input, leading zeros included; only a carry
/// beyond that width adds digits, and then the first digit is not zero.
pub fn mul_digits(digits: &Vec<u8>, multiplier: u64) -> (out: Vec<u8>)
    requires
        all_digits(digits@),
        digits@.len() + 20 <= usize::MAX,
    ensures
        all_digits(out@),
        digits_value(out@) == digits_value(digits@) * multiplier,
        digits@.len() <= out@.len() <= digits@.len() + 20,
        out@.len() > digits@.len() ==> out@[0] != 0,
        digits@.len() > 0 && digits@[0] != 0 && multiplier > 0 ==> out@[0] != 0,
{
    let n = digits.len();
    let len = n + 20;
    let mut out: Vec<u8> = Vec::new();
    let mut k: usize = 0;
    while k < len
        invariant
            out@.len() == k,
            k <= len,
            forall|j: int| 0 <= j < k ==> out@[j] == 0,
        decreases len - k,
    {
        out.push(0);
        k = k + 1;
    }
    let m = multiplier as u128;
    let mut write: usize = len;
    let mut carry: u128 = 0;
    let mut i: usize = n;
    proof {
        assert(out@.skip(len as int) =~= Seq::<u8>::empty());
        assert(digits@.skip(n as int) =~= Seq::<u8>::empty());
        assert(pow10(0) == 1);
        assert(digits_value(Seq::<u8>::empty()) == 0);
        assert(0 * multiplier == 0);
    }
    while i > 0
        invariant
            all_digits(digits@),
            digits@.len() == n,
            out@.len() == len,
            len == n + 20,
            m == multiplier,
            write == i + 20,
            i <= n,
            carry < m || (carry == 0 && m == 0),
            all_digits(out@),
            digits_value(out@.skip(write as int)) + carry * pow10((len - write) as nat)
                == digits_value(digits@.skip(i as int)) * multiplier,
        decreases i,
    {
        let d = digits[i - 1];
        proof {
            assert(d <= 9);
            assert(d as u128 * m <= 9 * m) by (nonlinear_arith)
                requires
                    d <= 9,
            ;
        }
        let nval: u128 = d as u128 * m + carry;
        let ghost old_out = out@;
        let ghost old_carry = carry;
        let ghost e = (len - write) as nat;
        write = write - 1;
        out.set(write, (nval % 10) as u8);
        carry = nval / 10;
        i = i - 1;
        proof {
            assert(out@.skip(write as int) =~= seq![(nval % 10) as u8] + old_out.skip(
                write as int + 1,
            ));
            lemma_digits_value_cons((nval % 10) as u8, old_out.skip(write as int + 1));
            assert(digits@.skip(i as int) =~= seq![d] + digits@.skip(i as int + 1));
            lemma_digits_value_cons(d, digits@.skip(i as int + 1));
            assert(old_out.skip(write as int + 1).len() == e);
            assert(digits@.skip(i as int + 1).len() == e);
            assert(pow10(e + 1) == 10 * pow10(e));
            let vo = digits_value(old_out.skip(write as int + 1));
            let vd = digits_value(digits@.skip(i as int + 1));
            assert((nval % 10) * pow10(e) + vo + (nval / 10) * pow10(e + 1) == (d * multiplier)
                * pow10(e) + (vo + old_carry * pow10(e))) by (nonlinear_arith)
                requires
                    nval == d * multiplier + old_carry,
                    pow10(e + 1) == 10 * pow10(e),
            ;
            assert((d * multiplier) * pow10(e) + vd * multiplier == (d * pow10(e) + vd)
                * multiplier) by (nonlinear_arith);
            assert(nval / 10 < m || (nval / 10 == 0 && m == 0)) by (nonlinear_arith)
                requires
                    nval == d * m + old_carry,
                    d <= 9,
                    old_carry < m || (old_carry == 0 && m == 0),
            ;
            assert forall|j: int| 0 <= j < out@.len() implies #[trigger] out@[j] <= 9 by {
                if j != write {
                    assert(out@[j] == old_out[j]);
                }
            }
        }
    }
    proof {
        assert(digits@.skip(0) =~= digits@);
        assert(pow10(20) == 100000000000000000000nat) by {
            reveal_with_fuel(pow10, 21);
        }
        assert(carry < pow10(write as nat));
    }
    while carry != 0
        invariant
            out@.len() == len,
            len == n + 20,
            write <= 20,
            carry < pow10(write as nat),
            all_digits(out@),
            digits_value(out@.skip(write as int)) + carry * pow10((len - write) as nat)
                == digits_value(digits@) * multiplier,
            carry == 0 ==> write == 20 || out@[write as int] != 0,
        decreases write,
    {
        let ghost old_out = out@;
        let ghost old_carry = carry;
        let ghost e = (len - write) as nat;
        proof {
            if write == 0 {
                assert(pow10(0) == 1);
            }
        }
        write = write - 1;
        out.set(write, (carry % 10) as u8);
        carry = carry / 10;
        proof {
            assert(out@.skip(write as int) =~= seq![(old_carry % 10) as u8] + old_out.skip(
                write as int + 1,
            ));
            lemma_digits_value_cons((old_carry % 10) as u8, old_out.skip(write as int + 1));
            assert(old_out.skip(write as int + 1).len() == e);
            assert(pow10(e + 1) == 10 * pow10(e));
            assert(pow10(write as nat + 1) == 10 * pow10(write as nat));
            let vo = digits_value(old_out.skip(write as int + 1));
            assert((old_carry % 10) * pow10(e) + vo + (old_carry / 10) * pow10(e + 1) == vo
                + old_carry * pow10(e)) by (nonlinear_arith)
                requires
                    pow10(e + 1) == 10 * pow10(e),
            ;
            assert(old_carry / 10 < pow10(write as nat)) by (nonlinear_arith)
                requires
                    old_carry < pow10(write as nat + 1),
                    pow10(write as nat + 1) == 10 * pow10(write as nat),
            ;
            assert forall|j: int| 0 <= j < out@.len() implies #[trigger] out@[j] <= 9 by {
                if j != write {
                    assert(out@[j] == old_out[j]);
                }
            }
        }
    }
    let mut result: Vec<u8> = Vec::new();
    let mut j = write;
    while j < len
        invariant
            write <= j <= len,
            out@.len() == len,
            result@ == out@.subrange(write as int, j as int),
        decreases len - j,
    {
        result.push(out[j]);
        j = j + 1;
    }
    proof {
        assert(out@.skip(write as int) =~= result@);
        assert(pow10(0) == 1);
        assert(all_digits(result@));
        if n > 0 && digits@[0] != 0 && multiplier > 0 && result@.len() == n {
            lemma_digits_value_lower(digits@);
            assert(digits_value(digits@) * multiplier >= digits_value(digits@)) by (
            nonlinear_arith)
                requires
                    multiplier >= 1,
            ;
            if result@[0] == 0 {
                lemma_digits_value_leading_zeros(result@, 1);
                assert(all_digits(result@.skip(1)));
                lemma_digits_value_bound(result@.skip(1));
            }
        }
    }
    result
}

} // verus!
