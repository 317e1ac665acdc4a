use vstd::prelude::*;
use vstd::string::*;
use crate::decimal::{all_ascii_digits, char_digits, is_ascii_digit};
use crate::digits::{all_digits, digits_value};
use crate::json::{first_index, Object, Value};
use crate::material::invalid_with;
use crate::text::{chars_of, str_eq};
use crate::types::Error;

verus! {

/// An `Invalid` error whose detail is `label` followed by `suffix`.
pub(crate) fn invalid_label(label: &str, suffix: &str) -> (e: Error)
    ensures
        invalid_with(e, label@ + suffix@),
{
    let mut s = String::from_str(label);
    s.append(suffix);
    Error::Invalid(s)
}

pub open spec fn must_be_object(label: Seq<char>) -> Seq<char> {
    label + " must be an object"@
}

pub open spec fn unknown_keys(label: Seq<char>) -> Seq<char> {
    label + " has missing or unknown keys"@
}

pub open spec fn missing(label: Seq<char>) -> Seq<char> {
    "missing "@ + label
}

pub open spec fn not_nonnegative_integer(label: Seq<char>) -> Seq<char> {
    label + " must be a nonnegative integer"@
}

pub open spec fn not_string(label: Seq<char>) -> Seq<char> {
    label + " must be a string"@
}

pub open spec fn not_list(label: Seq<char>) -> Seq<char> {
    label + " must be a list"@
}

/// The object inside a value that must be one.
pub fn expect_object(value: Value, label: &str) -> (r: Result<Object, Error>)
    ensures
        match value {
            Value::Object(o) => r == Ok::<Object, Error>(o),
            _ => r matches Err(e) && invalid_with(e, must_be_object(label@)),
        },
{
    match value {
        Value::Object(o) => Ok(o),
        _ => Err(invalid_label(label, " must be an object")),
    }
}

/// The views of a list of names.
pub open spec fn names(expected: Seq<&str>) -> Seq<Seq<char>> {
    expected.map_values(|s: &str| s@)
}

/// The object's keys are exactly the expected names, counted with
/// multiplicity and in any order.
pub fn exact_keys(obj: &Object, expected: &[&str], label: &str) -> (r: Result<(), Error>)
    ensures
        match r {
            Ok(_) => obj.key_seq().to_multiset() == names(expected@).to_multiset(),
            Err(e) => obj.key_seq().to_multiset() != names(expected@).to_multiset()
                && invalid_with(e, unknown_keys(label@)),
        },
{
    let ghost ks = obj.key_seq();
    let ghost all = names(expected@);
    let mut want: Vec<&str> = Vec::new();
    let mut i: usize = 0;
    while i < expected.len()
        invariant
            i <= expected@.len(),
            want@ == expected@.take(i as int),
        decreases expected@.len() - i,
    {
        want.push(expected[i]);
        assert(expected@.take(i as int + 1) =~= expected@.take(i as int).push(expected@[i as int]));
        i = i + 1;
    }
    assert(expected@.take(expected@.len() as int) =~= expected@);
    let mut k: usize = 0;
    proof {
        lemma_multiset_start(ks, all);
    }
    while k < obj.entries.len()
        invariant
            k <= obj.entries@.len(),
            ks == obj.key_seq(),
            all == names(expected@),
            ks.take(k as int).to_multiset().add(names(want@).to_multiset()) == all.to_multiset(),
        decreases obj.entries@.len() - k,
    {
        let key = obj.entries[k].0.as_str();
        let mut j: usize = 0;
        let mut found = false;
        while j < want.len()
            invariant_except_break
                j <= want@.len(),
                !found,
                forall|t: int| 0 <= t < j ==> names(want@)[t] != key@,
            ensures
                found ==> j < want@.len() && names(want@)[j as int] == key@,
                !found ==> forall|t: int| 0 <= t < want@.len() ==> names(want@)[t] != key@,
            decreases want@.len() - j,
        {
            if str_eq(want[j], key) {
                found = true;
                break;
            }
            j = j + 1;
        }
        let ghost before = names(want@);
        let ghost taken = ks.take(k as int);
        assert(key@ == ks[k as int]);
        assert(ks.take(k as int + 1) =~= taken.push(ks[k as int]));
        if !found {
            proof {
                assert(!before.contains(key@));
                lemma_extra_key(ks, k as int, before, all);
            }
            return Err(invalid_label(label, " has missing or unknown keys"));
        }
        want.remove(j);
        proof {
            assert(names(want@) =~= before.remove(j as int));
            lemma_matched_key(taken, key@, before, j as int, all);
        }
        k = k + 1;
    }
    assert(ks.take(ks.len() as int) =~= ks);
    if want.len() != 0 {
        proof {
            lemma_leftover_name(ks, names(want@), all);
        }
        return Err(invalid_label(label, " has missing or unknown keys"));
    }
    proof {
        assert(names(want@) =~= Seq::<Seq<char>>::empty());
        lemma_multiset_start(ks, all);
    }
    Ok(())
}

proof fn lemma_multiset_start(ks: Seq<Seq<char>>, all: Seq<Seq<char>>)
    ensures
        ks.take(0).to_multiset().add(all.to_multiset()) == all.to_multiset(),
        ks.to_multiset().add(Seq::<Seq<char>>::empty().to_multiset()) == ks.to_multiset(),
{
    broadcast use vstd::seq_lib::group_to_multiset_ensures;
    broadcast use vstd::multiset::group_multiset_axioms;

    assert(ks.take(0) =~= Seq::<Seq<char>>::empty());
    assert(Seq::<Seq<char>>::empty().to_multiset() =~= vstd::multiset::Multiset::empty());
    assert(ks.take(0).to_multiset().add(all.to_multiset()) =~= all.to_multiset());
    assert(ks.to_multiset().add(Seq::<Seq<char>>::empty().to_multiset()) =~= ks.to_multiset());
}

/// A key that no remaining name matches makes the multisets differ.
proof fn lemma_extra_key(ks: Seq<Seq<char>>, k: int, rest: Seq<Seq<char>>, all: Seq<Seq<char>>)
    requires
        0 <= k < ks.len(),
        ks.take(k).to_multiset().add(rest.to_multiset()) == all.to_multiset(),
        !rest.contains(ks[k]),
    ensures
        ks.to_multiset() != all.to_multiset(),
{
    broadcast use vstd::seq_lib::group_to_multiset_ensures;
    broadcast use vstd::multiset::group_multiset_axioms;

    let x = ks[k];
    let taken = ks.take(k);
    let tail = ks.skip(k);
    assert(ks =~= taken + tail);
    vstd::seq_lib::lemma_multiset_commutative(taken, tail);
    assert(tail[0] == x);
    assert(tail.contains(x));
    assert(tail.to_multiset().count(x) > 0);
    assert(rest.to_multiset().count(x) == 0);
    assert(all.to_multiset().count(x) == taken.to_multiset().count(x));
    assert(ks.to_multiset().count(x) == taken.to_multiset().count(x) + tail.to_multiset().count(x));
}

/// Matching a key against one remaining name keeps the balance.
proof fn lemma_matched_key(
    taken: Seq<Seq<char>>,
    x: Seq<char>,
    rest: Seq<Seq<char>>,
    j: int,
    all: Seq<Seq<char>>,
)
    requires
        0 <= j < rest.len(),
        rest[j] == x,
        taken.to_multiset().add(rest.to_multiset()) == all.to_multiset(),
    ensures
        taken.push(x).to_multiset().add(rest.remove(j).to_multiset()) == all.to_multiset(),
{
    broadcast use vstd::seq_lib::group_to_multiset_ensures;
    broadcast use vstd::multiset::group_multiset_axioms;

    assert(taken.push(x).to_multiset() =~= taken.to_multiset().insert(x));
    assert(rest.remove(j).to_multiset() =~= rest.to_multiset().remove(x));
    assert(rest.to_multiset().count(x) > 0) by {
        assert(rest.contains(x));
    }
    assert(taken.push(x).to_multiset().add(rest.remove(j).to_multiset()) =~= all.to_multiset());
}

/// Names left unmatched at the end make the multisets differ.
proof fn lemma_leftover_name(ks: Seq<Seq<char>>, rest: Seq<Seq<char>>, all: Seq<Seq<char>>)
    requires
        rest.len() > 0,
        ks.to_multiset().add(rest.to_multiset()) == all.to_multiset(),
    ensures
        ks.to_multiset() != all.to_multiset(),
{
    broadcast use vstd::seq_lib::group_to_multiset_ensures;
    broadcast use vstd::multiset::group_multiset_axioms;

    assert(rest.to_multiset().len() > 0);
    assert(all.to_multiset().len() == ks.to_multiset().len() + rest.to_multiset().len());
}

/// The digits of an unsigned decimal text, after an optional `+`.
pub open spec fn unsigned_digits(t: Seq<char>) -> Seq<char> {
    if t.len() > 0 && t[0] == '+' {
        t.drop_first()
    } else {
        t
    }
}

/// The value of an unsigned decimal text as `u64::from_str` reads it: an
/// optional `+`, then one or more ASCII digits, at most `u64::MAX`.
pub open spec fn u64_text(t: Seq<char>) -> Option<nat> {
    let ds = unsigned_digits(t);
    if ds.len() > 0 && all_ascii_digits(ds) && digits_value(char_digits(ds)) <= u64::MAX {
        Some(digits_value(char_digits(ds)))
    } else {
        None
    }
}

/// Reads an unsigned decimal text.
pub fn parse_u64(text: &str) -> (r: Option<u64>)
    ensures
        match u64_text(text@) {
            Some(n) => r == Some(n as u64),
            None => r is None,
        },
{
    let cs = chars_of(text);
    let mut lo: usize = 0;
    if cs.len() > 0 && cs[0] == '+' {
        lo = 1;
    }
    let ghost ds = unsigned_digits(text@);
    assert(ds =~= cs@.skip(lo as int));
    if lo == cs.len() {
        return None;
    }
    let mut acc: u64 = 0;
    let mut i = lo;
    let ghost dmap = char_digits(ds);
    assert(dmap.take(0) =~= Seq::<u8>::empty());
    while i < cs.len()
        invariant
            lo <= i <= cs@.len(),
            ds == cs@.skip(lo as int),
            ds == unsigned_digits(text@),
            dmap == char_digits(ds),
            forall|t: int| 0 <= t < i - lo ==> is_ascii_digit(#[trigger] ds[t]),
            acc == digits_value(dmap.take(i - lo)),
        decreases cs@.len() - i,
    {
        let c = cs[i];
        assert(ds[i - lo] == c);
        if !('0' <= c && c <= '9') {
            assert(!is_ascii_digit(ds[i - lo]));
            return None;
        }
        let d = (c as u32 - '0' as u32) as u64;
        let ghost p = dmap.take(i - lo + 1);
        assert(p.drop_last() =~= dmap.take(i - lo));
        assert(p.last() == d);
        if acc > (u64::MAX - d) / 10 {
            proof {
                assert(acc * 10 + d > u64::MAX) by (nonlinear_arith)
                    requires
                        acc > (u64::MAX - d) / 10,
                        d <= 9,
                ;
                if all_ascii_digits(ds) {
                    assert(all_digits(dmap)) by {
                        assert forall|t: int| 0 <= t < dmap.len() implies #[trigger] dmap[t]
                            <= 9 by {
                            assert(is_ascii_digit(ds[t]));
                        }
                    }
                    crate::digits::lemma_digits_value_take_le(dmap, i - lo + 1);
                }
            }
            return None;
        }
        acc = acc * 10 + d;
        i = i + 1;
    }
    assert(dmap.take(ds.len() as int) =~= dmap);
    Some(acc)
}

/// Takes out `key`, which must hold a nonnegative integer.
pub fn take_u64(obj: &mut Object, key: &str, label: &str) -> (r: Result<u64, Error>)
    ensures
        match first_index(old(obj).key_seq(), key@) {
            None => {
                &&& final(obj).entries@ == old(obj).entries@
                &&& r matches Err(e) && invalid_with(e, missing(label@))
            },
            Some(i) => final(obj).entries@ == old(obj).entries@.remove(i) && match old(
                obj,
            ).entries@[i].1 {
                Value::Number(t) => if t@.contains('.') || t@.contains('e') || t@.contains('E') || (
                t@.len() > 0 && t@[0] == '-') {
                    r matches Err(e) && invalid_with(e, not_nonnegative_integer(label@))
                } else {
                    match u64_text(t@) {
                        Some(n) => r == Ok::<u64, Error>(n as u64),
                        None => r matches Err(e) && invalid_with(
                            e,
                            not_nonnegative_integer(label@),
                        ),
                    }
                },
                _ => r matches Err(e) && invalid_with(e, not_nonnegative_integer(label@)),
            },
        },
{
    let value = match obj.remove(key) {
        Some(v) => v,
        None => {
            return Err(invalid_label("missing ", label));
        },
    };
    match value {
        Value::Number(text) => {
            if has_char(text.as_str(), '.') || has_char(text.as_str(), 'e') || has_char(
                text.as_str(),
                'E',
            ) || starts_with_char(text.as_str(), '-') {
                return Err(invalid_label(label, " must be a nonnegative integer"));
            }
            match parse_u64(text.as_str()) {
                Some(n) => Ok(n),
                None => Err(invalid_label(label, " must be a nonnegative integer")),
            }
        },
        _ => Err(invalid_label(label, " must be a nonnegative integer")),
    }
}

fn has_char(s: &str, c: char) -> (b: bool)
    ensures
        b == s@.contains(c),
{
    let cs = chars_of(s);
    let mut i: usize = 0;
    while i < cs.len()
        invariant
            i <= cs@.len(),
            cs@ == s@,
            forall|j: int| 0 <= j < i ==> cs@[j] != c,
        decreases cs@.len() - i,
    {
        if cs[i] == c {
            return true;
        }
        i = i + 1;
    }
    false
}

fn starts_with_char(s: &str, c: char) -> (b: bool)
    ensures
        b == (s@.len() > 0 && s@[0] == c),
{
    let cs = chars_of(s);
    cs.len() > 0 && cs[0] == c
}

/// Takes out `key`, which must hold a string.
pub fn take_string(obj: &mut Object, key: &str, label: &str) -> (r: Result<String, Error>)
    ensures
        match first_index(old(obj).key_seq(), key@) {
            None => {
                &&& final(obj).entries@ == old(obj).entries@
                &&& r matches Err(e) && invalid_with(e, not_string(label@))
            },
            Some(i) => final(obj).entries@ == old(obj).entries@.remove(i) && match old(
                obj,
            ).entries@[i].1 {
                Value::String(s) => r == Ok::<String, Error>(s),
                _ => r matches Err(e) && invalid_with(e, not_string(label@)),
            },
        },
{
    match obj.remove(key) {
        Some(Value::String(s)) => Ok(s),
        _ => Err(invalid_label(label, " must be a string")),
    }
}

/// Takes out `key`, which must hold a list.
pub fn take_array(obj: &mut Object, key: &str, label: &str) -> (r: Result<Vec<Value>, Error>)
    ensures
        match first_index(old(obj).key_seq(), key@) {
            None => {
                &&& final(obj).entries@ == old(obj).entries@
                &&& r matches Err(e) && invalid_with(e, not_list(label@))
            },
            Some(i) => final(obj).entries@ == old(obj).entries@.remove(i) && match old(
                obj,
            ).entries@[i].1 {
                Value::Array(v) => r == Ok::<Vec<Value>, Error>(v),
                _ => r matches Err(e) && invalid_with(e, not_list(label@)),
            },
        },
{
    match obj.remove(key) {
        Some(Value::Array(v)) => Ok(v),
        _ => Err(invalid_label(label, " must be a list")),
    }
}

} // verus!
