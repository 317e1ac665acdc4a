use vstd::prelude::*;
use vstd::utf8::*;

verus! {

/// Byte-wise equality of two slices.
pub fn bytes_eq(a: &[u8], b: &[u8]) -> (r: bool)
    ensures
        r == (a@ == b@),
{
    if a.len() != b.len() {
        return false;
    }
    let mut i: usize = 0;
    while i < a.len()
        invariant
            a@.len() == b@.len(),
            0 <= i <= a@.len(),
            forall|j: int| 0 <= j < i ==> a@[j] == b@[j],
        decreases a@.len() - i,
    {
        if a[i] != b[i] {
            return false;
        }
        i = i + 1;
    }
    assert(a@ =~= b@);
    true
}

/// Equality of two string slices, by their characters.
pub fn str_eq(a: &str, b: &str) -> (r: bool)
    ensures
        r == (a@ == b@),
{
    let r = bytes_eq(a.as_bytes(), b.as_bytes());
    proof {
        encode_utf8_decode_utf8(a@);
        encode_utf8_decode_utf8(b@);
    }
    r
}

} // verus!

verus! {

/// The characters of a string slice, in order.
pub fn chars_of(s: &str) -> (v: Vec<char>)
    ensures
        v@ == s@,
{
    let mut v: Vec<char> = Vec::new();
    for c in it: s.chars()
        invariant
            v@ == it.seq().take(it.index() as int),
    {
        v.push(c);
    }
    v
}

} // verus!

verus! {

/// `String::push` from std: appends one character.
#[verifier::external_body]
pub(crate) fn push_char(s: &mut String, c: char)
    ensures
        final(s)@ == old(s)@.push(c),
{
    s.push(c);
}

/// The ASCII digit character for `d < 10`.
pub open spec fn digit_char(d: nat) -> char {
    (('0' as u32) + d) as char
}

/// Shortest decimal text of a natural number.
pub open spec fn decimal_text(n: nat) -> Seq<char>
    decreases n,
{
    if n < 10 {
        seq![digit_char(n)]
    } else {
        decimal_text(n / 10).push(digit_char(n % 10))
    }
}

/// Appends the decimal text of `n`.
pub fn push_decimal(out: &mut String, n: u128)
    ensures
        final(out)@ == old(out)@ + decimal_text(n as nat),
    decreases n,
{
    if n >= 10 {
        push_decimal(out, n / 10);
    }
    let d = (n % 10) as u32;
    let c = char_from_digit(d);
    push_char(out, c);
    proof {
        if n >= 10 {
            assert(old(out)@ + decimal_text(n as nat) =~= (old(out)@ + decimal_text(
                (n / 10) as nat,
            )).push(digit_char((n % 10) as nat)));
        } else {
            assert(old(out)@ + decimal_text(n as nat) =~= old(out)@.push(digit_char(n as nat)));
        }
    }
}

pub(crate) fn char_from_digit(d: u32) -> (c: char)
    requires
        d < 10,
    ensures
        c == digit_char(d as nat),
{
    match d {
        0 => '0',
        1 => '1',
        2 => '2',
        3 => '3',
        4 => '4',
        5 => '5',
        6 => '6',
        7 => '7',
        8 => '8',
        _ => '9',
    }
}

/// Number of bytes of a character in UTF-8.
pub open spec fn utf8_width(c: char) -> nat {
    let u = c as u32;
    if u < 0x80 {
        1
    } else if u < 0x800 {
        2
    } else if u < 0x10000 {
        3
    } else {
        4
    }
}

/// Number of bytes of a character sequence in UTF-8.
pub open spec fn utf8_len(s: Seq<char>) -> nat
    decreases s.len(),
{
    if s.len() == 0 {
        0
    } else {
        utf8_len(s.drop_last()) + utf8_width(s.last())
    }
}

pub fn char_width(c: char) -> (w: u128)
    ensures
        w == utf8_width(c),
{
    let u = c as u32;
    if u < 0x80 {
        1
    } else if u < 0x800 {
        2
    } else if u < 0x10000 {
        3
    } else {
        4
    }
}

pub proof fn lemma_utf8_len_concat(a: Seq<char>, b: Seq<char>)
    ensures
        utf8_len(a + b) == utf8_len(a) + utf8_len(b),
    decreases b.len(),
{
    if b.len() == 0 {
        assert(a + b =~= a);
    } else {
        assert((a + b).drop_last() =~= a + b.drop_last());
        lemma_utf8_len_concat(a, b.drop_last());
    }
}

/// Whether at least `need` UTF-8 bytes follow the character position `p`.
pub fn bytes_available(cs: &Vec<char>, p: usize, need: u128) -> (b: bool)
    requires
        p <= cs@.len(),
        need <= 8,
    ensures
        b == (utf8_len(cs@) >= utf8_len(cs@.take(p as int)) + need),
{
    let mut acc: u128 = 0;
    let mut j = p;
    assert(cs@.subrange(p as int, p as int) =~= Seq::<char>::empty());
    while j < cs.len() && acc < need
        invariant
            p <= j <= cs@.len(),
            acc == utf8_len(cs@.subrange(p as int, j as int)),
            acc <= need + 4,
            need <= 8,
        decreases cs@.len() - j,
    {
        assert(cs@.subrange(p as int, j as int + 1).drop_last() =~= cs@.subrange(
            p as int,
            j as int,
        ));
        acc = acc + char_width(cs[j]);
        j = j + 1;
    }
    proof {
        let a = cs@.take(p as int);
        let mid = cs@.subrange(p as int, j as int);
        let rest = cs@.skip(j as int);
        assert(cs@ =~= a + mid + rest);
        lemma_utf8_len_concat(a + mid, rest);
        lemma_utf8_len_concat(a, mid);
        if j == cs@.len() {
            assert(rest =~= Seq::<char>::empty());
        }
    }
    acc >= need
}

/// UTF-8 byte offset of the character position `p`.
pub fn byte_offset(cs: &Vec<char>, p: usize) -> (r: u128)
    requires
        p <= cs@.len(),
    ensures
        r == utf8_len(cs@.take(p as int)),
{
    let mut total: u128 = 0;
    let mut i: usize = 0;
    assert(cs@.take(0) =~= Seq::<char>::empty());
    while i < p
        invariant
            i <= p <= cs@.len(),
            total == utf8_len(cs@.take(i as int)),
            total <= 4 * i,
        decreases p - i,
    {
        assert(cs@.take(i as int + 1).drop_last() =~= cs@.take(i as int));
        total = total + char_width(cs[i]);
        i = i + 1;
    }
    total
}

} // verus!
