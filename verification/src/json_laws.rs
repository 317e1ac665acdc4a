use vstd::prelude::*;
use crate::json::{
    array_spec, char_at_is, digits_end, document_spec, elements_spec, is_digit_char, is_json_ws,
    json_number_text, lemma_array_unfold, lemma_elements_unfold, lemma_members_unfold,
    lemma_object_unfold, lemma_value_unfold, members_spec, number_end, number_spec, object_spec,
    skip_ws, value_spec, JsonView, MAX_DEPTH,
};
use crate::number::number_finite;

verus! {

/// One of the four characters that JSON counts as whitespace.
pub open spec fn space_tab_lf_cr(c: char) -> bool {
    c == ' ' || c == '\t' || c == '\n' || c == '\r'
}

// ---------------------------------------------------------------------------
// Whitespace.

/// JSON whitespace is exactly space, tab, line feed and carriage return:
/// skipping whitespace from `p` passes over those characters only, and stops
/// at the first character that is none of them, or at the end.
pub proof fn law_whitespace_is_space_tab_lf_cr(cs: Seq<char>, p: int)
    requires
        0 <= p <= cs.len(),
    ensures
        p <= skip_ws(cs, p) <= cs.len(),
        forall|i: int| p <= i < skip_ws(cs, p) ==> space_tab_lf_cr(#[trigger] cs[i]),
        skip_ws(cs, p) < cs.len() ==> !space_tab_lf_cr(cs[skip_ws(cs, p)]),
    decreases cs.len() - p,
{
    if p < cs.len() && is_json_ws(cs[p]) {
        law_whitespace_is_space_tab_lf_cr(cs, p + 1);
    }
}

// ---------------------------------------------------------------------------
// Bounds of the number grammar.

proof fn lemma_digits_end_bounds(cs: Seq<char>, p: int)
    requires
        0 <= p <= cs.len(),
    ensures
        p <= digits_end(cs, p) <= cs.len(),
    decreases cs.len() - p,
{
    if p < cs.len() && is_digit_char(cs[p]) {
        lemma_digits_end_bounds(cs, p + 1);
    }
}

/// A number starting at `p` ends after `p`, within the text.
pub proof fn lemma_number_end_bounds(cs: Seq<char>, p: int)
    requires
        0 <= p <= cs.len(),
    ensures
        number_end(cs, p) matches Some(e) ==> p < e <= cs.len(),
{
    let q = if char_at_is(cs, p, '-') {
        p + 1
    } else {
        p
    };
    if 0 <= q < cs.len() {
        lemma_digits_end_bounds(cs, q + 1);
    }
    match number_end(cs, p) {
        Some(_) => {
            let q1 = if char_at_is(cs, q, '0') {
                q + 1
            } else {
                digits_end(cs, q + 1)
            };
            assert(q < q1 <= cs.len());
            if char_at_is(cs, q1, '.') {
                lemma_digits_end_bounds(cs, q1 + 1);
            }
            let q2 = if char_at_is(cs, q1, '.') {
                digits_end(cs, q1 + 1)
            } else {
                q1
            };
            assert(q1 <= q2 <= cs.len());
            if char_at_is(cs, q2, 'e') || char_at_is(cs, q2, 'E') {
                let r = if char_at_is(cs, q2 + 1, '+') || char_at_is(cs, q2 + 1, '-') {
                    q2 + 2
                } else {
                    q2 + 1
                };
                if r <= cs.len() {
                    lemma_digits_end_bounds(cs, r);
                }
            }
        },
        None => {},
    }
}

// ---------------------------------------------------------------------------
// The exponent marker.

proof fn lemma_digits_end_update(cs: Seq<char>, i: int, c: char, p: int)
    requires
        0 <= i < cs.len(),
        !is_digit_char(cs[i]),
        !is_digit_char(c),
    ensures
        digits_end(cs.update(i, c), p) == digits_end(cs, p),
    decreases cs.len() - p,
{
    let ct = cs.update(i, c);
    if 0 <= p < cs.len() && is_digit_char(cs[p]) {
        assert(ct[p] == cs[p]);
        lemma_digits_end_update(cs, i, c, p + 1);
    } else if 0 <= p < cs.len() {
        assert(!is_digit_char(ct[p]));
    }
}

/// The exponent marker may be written `e` or `E`: turning an `e` into an
/// `E`, anywhere in the text, never changes whether or where a number
/// starting at `p` ends.
pub proof fn law_exponent_marker_case(cs: Seq<char>, p: int, i: int)
    requires
        0 <= i < cs.len(),
        cs[i] == 'e',
    ensures
        number_end(cs.update(i, 'E'), p) == number_end(cs, p),
{
    let ct = cs.update(i, 'E');
    assert forall|k: int| #[trigger] digits_end(ct, k) == digits_end(cs, k) by {
        lemma_digits_end_update(cs, i, 'E', k);
    }
    assert forall|k: int, c: char|
        c != 'e' && c != 'E' implies #[trigger] char_at_is(ct, k, c) == char_at_is(cs, k, c) by {
        if 0 <= k < cs.len() && k != i {
            assert(ct[k] == cs[k]);
        }
    }
    assert forall|k: int|
        (#[trigger] char_at_is(ct, k, 'e') || char_at_is(ct, k, 'E')) == (char_at_is(cs, k, 'e')
            || char_at_is(cs, k, 'E')) by {
        if 0 <= k < cs.len() && k != i {
            assert(ct[k] == cs[k]);
        }
    }
    assert forall|k: int| (0 <= k < ct.len() && '1' <= #[trigger] ct[k] <= '9') == (0 <= k
        < cs.len() && '1' <= cs[k] <= '9') by {
        if 0 <= k < cs.len() && k != i {
            assert(ct[k] == cs[k]);
        }
    }
}

proof fn lemma_digits_end_prefix(m: Seq<char>, s: Seq<char>, k: int)
    requires
        0 <= k <= m.len(),
        s.len() > 0,
        !is_digit_char(s[0]),
    ensures
        digits_end(m + s, k) == digits_end(m, k),
    decreases m.len() - k,
{
    let cs = m + s;
    if k < m.len() {
        assert(cs[k] == m[k]);
        if is_digit_char(m[k]) {
            lemma_digits_end_prefix(m, s, k + 1);
        }
    } else {
        assert(cs[k] == s[0]);
    }
}

proof fn lemma_digits_to_end(cs: Seq<char>, k: int)
    requires
        0 <= k <= cs.len(),
        forall|j: int| k <= j < cs.len() ==> is_digit_char(#[trigger] cs[j]),
    ensures
        digits_end(cs, k) == cs.len(),
    decreases cs.len() - k,
{
    if k < cs.len() {
        lemma_digits_to_end(cs, k + 1);
    }
}

/// A number without exponent, followed by `e` or `E` and one or more
/// digits, is a number that runs to the end: both markers take an exponent.
pub proof fn law_exponent_is_accepted(m: Seq<char>, x: char, ds: Seq<char>)
    requires
        number_end(m, 0) == Some(m.len() as int),
        !m.contains('e'),
        !m.contains('E'),
        x == 'e' || x == 'E',
        ds.len() > 0,
        forall|j: int| 0 <= j < ds.len() ==> is_digit_char(#[trigger] ds[j]),
    ensures
        number_end(m + seq![x] + ds, 0) == Some((m.len() + 1 + ds.len()) as int),
{
    let s = seq![x] + ds;
    let cs = m + s;
    assert(m + seq![x] + ds =~= cs);
    assert(s[0] == x);
    assert forall|k: int| 0 <= k <= m.len() implies #[trigger] digits_end(cs, k) == digits_end(
        m,
        k,
    ) by {
        lemma_digits_end_prefix(m, s, k);
    }
    assert forall|k: int, c: char|
        0 <= k < m.len() implies #[trigger] char_at_is(cs, k, c) == char_at_is(m, k, c) by {
        assert(cs[k] == m[k]);
    }
    assert forall|k: int| 0 <= k < m.len() implies #[trigger] cs[k] == m[k] by {}
    assert(cs[m.len() as int] == x);
    assert forall|j: int| m.len() + 1 <= j < cs.len() implies is_digit_char(#[trigger] cs[j]) by {
        assert(cs[j] == ds[j - m.len() - 1]);
    }
    lemma_digits_to_end(cs, m.len() + 1int);
    lemma_number_end_bounds(m, 0);
    // The mantissa of `m` ends where `m` does.
    let q = if char_at_is(m, 0, '-') {
        1int
    } else {
        0int
    };
    lemma_digits_end_bounds(m, q + 1);
    let q1 = if char_at_is(m, q, '0') {
        q + 1
    } else {
        digits_end(m, q + 1)
    };
    if char_at_is(m, q1, '.') {
        lemma_digits_end_bounds(m, q1 + 1);
    }
    let q2 = if char_at_is(m, q1, '.') {
        digits_end(m, q1 + 1)
    } else {
        q1
    };
    if q2 < m.len() {
        assert(m[q2] != 'e' && m[q2] != 'E');
    }
    assert(q2 == m.len());
    assert(!char_at_is(cs, q1, '.') || char_at_is(m, q1, '.'));
    assert(cs[q2 + 1] == ds[0]);
}

// ---------------------------------------------------------------------------
// Whole-document numbers.

proof fn lemma_elements_give_arrays(cs: Seq<char>, p: int, d: int, acc: Seq<JsonView>)
    requires
        0 <= d <= MAX_DEPTH,
    ensures
        elements_spec(cs, p, d, acc) matches Ok((v, _)) ==> v is Array,
    decreases cs.len() - p,
{
    lemma_elements_unfold(cs, p, d, acc);
    if !(d >= MAX_DEPTH || p < 0 || p > cs.len()) {
        match value_spec(cs, p, d + 1) {
            Ok((v, p2)) => {
                let p3 = skip_ws(cs, p2);
                if p2 > p && p3 >= p2 && char_at_is(cs, p3, ',') {
                    lemma_elements_give_arrays(cs, p3 + 1, d, acc.push(v));
                }
            },
            Err(_) => {},
        }
    }
}

proof fn lemma_members_give_objects(
    cs: Seq<char>,
    p: int,
    d: int,
    acc: Seq<(Seq<char>, JsonView)>,
)
    requires
        0 <= d <= MAX_DEPTH,
    ensures
        members_spec(cs, p, d, acc) matches Ok((v, _)) ==> v is Object,
    decreases cs.len() - p,
{
    lemma_members_unfold(cs, p, d, acc);
    if !(d >= MAX_DEPTH || p < 0 || p > cs.len()) {
        let q = skip_ws(cs, p);
        if char_at_is(cs, q, '"') {
            match crate::json::string_spec(cs, q) {
                Ok((key, q2)) => {
                    let q3 = skip_ws(cs, q2);
                    if char_at_is(cs, q3, ':') {
                        match value_spec(cs, q3 + 1, d + 1) {
                            Ok((v, q4)) => {
                                let q5 = skip_ws(cs, q4);
                                if q4 > p && q5 >= q4 && char_at_is(cs, q5, ',') {
                                    lemma_members_give_objects(cs, q5 + 1, d, acc.push((key, v)));
                                }
                            },
                            Err(_) => {},
                        }
                    }
                },
                Err(_) => {},
            }
        }
    }
}

/// A value read as a number is read by the number grammar at its first
/// non-whitespace character.
proof fn lemma_number_values(cs: Seq<char>, d: int)
    requires
        0 <= d <= MAX_DEPTH,
    ensures
        value_spec(cs, 0, d) matches Ok((JsonView::Number(t), e)) ==> number_spec(
            cs,
            skip_ws(cs, 0),
        ) == Ok::<(Seq<char>, int), Seq<char>>((t, e)),
{
    lemma_value_unfold(cs, 0, d);
    let q = skip_ws(cs, 0);
    if 0 <= q < cs.len() && d < MAX_DEPTH {
        lemma_array_unfold(cs, q + 1, d);
        lemma_object_unfold(cs, q + 1, d);
        lemma_elements_give_arrays(cs, skip_ws(cs, q + 1), d, Seq::empty());
        lemma_members_give_objects(cs, skip_ws(cs, q + 1), d, Seq::empty());
    }
}

/// A text is read as a whole JSON document holding just that number exactly
/// when it is of the JSON number grammar and denotes a finite binary64.
/// This is the check that the number texts of a saved state and of a
/// presentation pass.
pub proof fn law_number_documents(t: Seq<char>)
    ensures
        document_spec(t) == Ok::<JsonView, Seq<char>>(JsonView::Number(t)) <==> (json_number_text(
            t,
        ) && number_finite(t)),
{
    law_whitespace_is_space_tab_lf_cr(t, 0);
    lemma_number_values(t, 0);
    let q = skip_ws(t, 0);
    if document_spec(t) == Ok::<JsonView, Seq<char>>(JsonView::Number(t)) {
        let e = value_spec(t, 0, 0)->Ok_0.1;
        assert(number_spec(t, q) == Ok::<(Seq<char>, int), Seq<char>>((t, e)));
        lemma_number_end_bounds(t, q);
        assert(number_end(t, q) == Some(e));
        assert(t.subrange(q, e) == t);
        assert(t.subrange(q, e).len() == e - q);
        assert(q == 0 && e == t.len());
    }
    if json_number_text(t) && number_finite(t) {
        assert(t.len() > 0);
        assert(t[0] == '-' || is_digit_char(t[0]));
        assert(q == 0);
        lemma_value_unfold(t, 0, 0);
        assert(t.subrange(0, t.len() as int) =~= t);
        assert(number_spec(t, 0) == Ok::<(Seq<char>, int), Seq<char>>((t, t.len() as int)));
        assert(skip_ws(t, t.len() as int) == t.len());
    }
}

proof fn lemma_digit_run(cs: Seq<char>, k: int)
    requires
        0 <= k <= cs.len(),
    ensures
        forall|j: int| k <= j < digits_end(cs, k) ==> is_digit_char(#[trigger] cs[j]),
    decreases cs.len() - k,
{
    if k < cs.len() && is_digit_char(cs[k]) {
        lemma_digit_run(cs, k + 1);
    }
}

/// A character that may occur inside a JSON number.
pub open spec fn number_char(c: char) -> bool {
    is_digit_char(c) || c == '-' || c == '+' || c == '.' || c == 'e' || c == 'E'
}

/// What the number grammar reads from `p` to its end `e`: it starts with a
/// minus sign or a digit, ends with a digit, and holds only digits, signs,
/// a decimal point and exponent markers.
pub proof fn law_number_shape(cs: Seq<char>, p: int)
    requires
        0 <= p <= cs.len(),
    ensures
        number_end(cs, p) matches Some(e) ==> {
            &&& cs[p] == '-' || is_digit_char(cs[p])
            &&& is_digit_char(cs[e - 1])
            &&& forall|j: int| p <= j < e ==> number_char(#[trigger] cs[j])
        },
{
    lemma_number_end_bounds(cs, p);
    if let Some(e) = number_end(cs, p) {
        let q = if char_at_is(cs, p, '-') {
            p + 1
        } else {
            p
        };
        assert(0 <= q < cs.len());
        lemma_digits_end_bounds(cs, q + 1);
        lemma_digit_run(cs, q + 1);
        let q1 = if char_at_is(cs, q, '0') {
            q + 1
        } else {
            digits_end(cs, q + 1)
        };
        assert(is_digit_char(cs[q]));
        assert(forall|j: int| q <= j < q1 ==> is_digit_char(#[trigger] cs[j]));
        let q2 = if char_at_is(cs, q1, '.') {
            digits_end(cs, q1 + 1)
        } else {
            q1
        };
        if char_at_is(cs, q1, '.') {
            lemma_digits_end_bounds(cs, q1 + 1);
            lemma_digit_run(cs, q1 + 1);
            assert(q2 > q1 + 1);
        }
        assert(forall|j: int| q <= j < q2 ==> number_char(#[trigger] cs[j]));
        assert(is_digit_char(cs[q2 - 1]));
        if char_at_is(cs, q2, 'e') || char_at_is(cs, q2, 'E') {
            let r = if char_at_is(cs, q2 + 1, '+') || char_at_is(cs, q2 + 1, '-') {
                q2 + 2
            } else {
                q2 + 1
            };
            assert(r <= cs.len());
            lemma_digits_end_bounds(cs, r);
            lemma_digit_run(cs, r);
            assert(e == digits_end(cs, r));
            assert(forall|j: int| r <= j < e ==> is_digit_char(#[trigger] cs[j]));
            assert(forall|j: int| q2 <= j < r ==> number_char(#[trigger] cs[j]));
            assert(forall|j: int| p <= j < e ==> number_char(#[trigger] cs[j]));
        } else {
            assert(e == q2);
        }
    }
}

} // verus!
