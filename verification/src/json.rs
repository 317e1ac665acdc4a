use vstd::prelude::*;
use vstd::string::*;
use crate::text::{
    byte_offset, decimal_text, push_char, push_decimal, utf8_len, };
use crate::number::{number_finite, number_is_finite};
use crate::types::Error;
use crate::text::str_eq;

verus! {

/// Containers may nest at most this deep; deeper input is refused before
/// it is recursed into.
pub const MAX_DEPTH: usize = 16;

/// The mathematical content of a JSON document as this parser reads it.
/// Object members keep their document order; keys are distinct.
pub enum JsonView {
    Null,
    Bool(bool),
    Number(Seq<char>),
    Str(Seq<char>),
    Array(Seq<JsonView>),
    Object(Seq<(Seq<char>, JsonView)>),
}

pub open spec fn is_json_ws(c: char) -> bool {
    c == ' ' || c == '\n' || c == '\r' || c == '\t'
}

/// First position at or after `p` that is not JSON whitespace.
pub open spec fn skip_ws(cs: Seq<char>, p: int) -> int
    decreases cs.len() - p,
{
    if 0 <= p < cs.len() && is_json_ws(cs[p]) {
        skip_ws(cs, p + 1)
    } else {
        p
    }
}

pub proof fn lemma_skip_ws_bounds(cs: Seq<char>, p: int)
    ensures
        skip_ws(cs, p) >= p,
        0 <= p <= cs.len() ==> skip_ws(cs, p) <= cs.len(),
    decreases cs.len() - p,
{
    if 0 <= p < cs.len() && is_json_ws(cs[p]) {
        lemma_skip_ws_bounds(cs, p + 1);
    }
}

/// UTF-8 byte offset of a character position, as error messages report it.
pub open spec fn offset(cs: Seq<char>, p: int) -> nat {
    utf8_len(cs.take(p))
}

pub open spec fn at_byte(prefix: Seq<char>, cs: Seq<char>, p: int) -> Seq<char> {
    prefix + decimal_text(offset(cs, p))
}

/// First byte of the UTF-8 encoding of a character.
pub open spec fn lead_byte(c: char) -> nat {
    let u = c as u32 as nat;
    if u < 0x80 {
        u
    } else if u < 0x800 {
        0xC0 + u / 64
    } else if u < 0x10000 {
        0xE0 + u / 4096
    } else {
        0xF0 + u / 262144
    }
}

pub open spec fn hex_value(c: char) -> Option<nat> {
    if '0' <= c <= '9' {
        Some((c as u32 - '0' as u32) as nat)
    } else if 'a' <= c <= 'f' {
        Some((c as u32 - 'a' as u32 + 10) as nat)
    } else if 'A' <= c <= 'F' {
        Some((c as u32 - 'A' as u32 + 10) as nat)
    } else {
        None
    }
}

/// Four hex digits at `p`, as a code unit.
#[verifier::opaque]
pub open spec fn hex4_spec(cs: Seq<char>, p: int) -> Result<nat, Seq<char>> {
    if utf8_len(cs) < utf8_len(cs.take(p)) + 4 {
        Err("short unicode escape"@)
    } else if p + 4 <= cs.len() && hex_value(cs[p]) is Some && hex_value(cs[p + 1]) is Some
        && hex_value(cs[p + 2]) is Some && hex_value(cs[p + 3]) is Some {
        Ok(
            ((hex_value(cs[p])->0 * 16 + hex_value(cs[p + 1])->0) * 16 + hex_value(
                cs[p + 2],
            )->0) * 16 + hex_value(cs[p + 3])->0,
        )
    } else {
        Err("invalid unicode escape"@)
    }
}

/// The character for a simple escape letter.
pub open spec fn simple_escape(e: char) -> Option<char> {
    if e == '"' {
        Some('"')
    } else if e == '\\' {
        Some('\\')
    } else if e == '/' {
        Some('/')
    } else if e == 'b' {
        Some('\u{08}')
    } else if e == 'f' {
        Some('\u{0c}')
    } else if e == 'n' {
        Some('\n')
    } else if e == 'r' {
        Some('\r')
    } else if e == 't' {
        Some('\t')
    } else {
        None
    }
}

/// The body of a string literal from `p` (after the opening quote), with the
/// text decoded so far.
#[verifier::opaque]
pub open spec fn string_body(cs: Seq<char>, p: int, acc: Seq<char>) -> Result<
    (Seq<char>, int),
    Seq<char>,
>
    decreases cs.len() - p,
{
    if p < 0 || p >= cs.len() {
        Err("unterminated JSON string"@)
    } else if cs[p] == '"' {
        Ok((acc, p + 1))
    } else if cs[p] == '\\' {
        if p + 1 >= cs.len() {
            Err("unterminated escape"@)
        } else {
            let e = cs[p + 1];
            if simple_escape(e) is Some {
                string_body(cs, p + 2, acc.push(simple_escape(e)->0))
            } else if e == 'u' {
                match hex4_spec(cs, p + 2) {
                    Err(m) => Err(m),
                    Ok(first) => if 0xD800 <= first <= 0xDBFF {
                        if !(p + 8 <= cs.len() && cs[p + 6] == '\\' && cs[p + 7] == 'u') {
                            Err("high surrogate without low surrogate"@)
                        } else {
                            match hex4_spec(cs, p + 8) {
                                Err(m) => Err(m),
                                Ok(second) => if !(0xDC00 <= second <= 0xDFFF) {
                                    Err("invalid low surrogate"@)
                                } else {
                                    let cp = 0x10000 + (first - 0xD800) * 1024 + (second
                                        - 0xDC00);
                                    proof {
                                        reveal(hex4_spec);
                                    }
                                    string_body(cs, p + 12, acc.push(cp as char))
                                },
                            }
                        }
                    } else if 0xDC00 <= first <= 0xDFFF {
                        Err("unpaired low surrogate"@)
                    } else {
                        proof {
                            reveal(hex4_spec);
                        }
                        string_body(cs, p + 6, acc.push(first as char))
                    },
                }
            } else {
                Err("invalid string escape"@)
            }
        }
    } else if (cs[p] as u32) < 0x20 {
        Err("control byte in JSON string"@)
    } else {
        string_body(cs, p + 1, acc.push(cs[p]))
    }
}

/// A string literal whose opening quote is at `p`.
pub open spec fn string_spec(cs: Seq<char>, p: int) -> Result<(Seq<char>, int), Seq<char>> {
    string_body(cs, p + 1, Seq::empty())
}

pub open spec fn is_digit_char(c: char) -> bool {
    '0' <= c <= '9'
}

/// First position at or after `p` that holds no digit.
pub open spec fn digits_end(cs: Seq<char>, p: int) -> int
    decreases cs.len() - p,
{
    if 0 <= p < cs.len() && is_digit_char(cs[p]) {
        digits_end(cs, p + 1)
    } else {
        p
    }
}

pub open spec fn char_at_is(cs: Seq<char>, p: int, c: char) -> bool {
    0 <= p < cs.len() && cs[p] == c
}

/// End of the number grammar starting at `p`, if it matches.
pub open spec fn number_end(cs: Seq<char>, p: int) -> Option<int> {
    let q = if char_at_is(cs, p, '-') {
        p + 1
    } else {
        p
    };
    let int_end = if char_at_is(cs, q, '0') {
        Some(q + 1)
    } else if 0 <= q < cs.len() && '1' <= cs[q] <= '9' {
        Some(digits_end(cs, q + 1))
    } else {
        None
    };
    match int_end {
        None => None,
        Some(q1) => {
            let frac_end = if char_at_is(cs, q1, '.') {
                if digits_end(cs, q1 + 1) == q1 + 1 {
                    None
                } else {
                    Some(digits_end(cs, q1 + 1))
                }
            } else {
                Some(q1)
            };
            match frac_end {
                None => None,
                Some(q2) => if char_at_is(cs, q2, 'e') || char_at_is(cs, q2, 'E') {
                    let r = if char_at_is(cs, q2 + 1, '+') || char_at_is(cs, q2 + 1, '-') {
                        q2 + 2
                    } else {
                        q2 + 1
                    };
                    if digits_end(cs, r) == r {
                        None
                    } else {
                        Some(digits_end(cs, r))
                    }
                } else {
                    Some(q2)
                },
            }
        },
    }
}

/// A number literal starting at `p`; its text is kept verbatim.
pub open spec fn number_spec(cs: Seq<char>, p: int) -> Result<(Seq<char>, int), Seq<char>> {
    match number_end(cs, p) {
        None => Err(at_byte("invalid number at byte "@, cs, p)),
        Some(e) => if number_finite(cs.subrange(p, e)) {
            Ok((cs.subrange(p, e), e))
        } else {
            Err("non-finite JSON number"@)
        },
    }
}

pub open spec fn literal_spec(cs: Seq<char>, p: int, lit: Seq<char>) -> Result<int, Seq<char>> {
    if p + lit.len() <= cs.len() && cs.subrange(p, p + lit.len()) == lit {
        Ok(p + lit.len())
    } else {
        Err(at_byte("invalid literal at byte "@, cs, p))
    }
}

pub open spec fn too_deep() -> Seq<char> {
    "JSON nesting is too deep"@
}

/// A value at nesting depth `d`, after optional whitespace from `p`.
pub open spec fn value_spec(cs: Seq<char>, p: int, d: int) -> Result<(JsonView, int), Seq<char>>
    decreases MAX_DEPTH - d, 3int, 0int,
{
    let q = skip_ws(cs, p);
    if q < 0 || q >= cs.len() {
        Err("unexpected end of JSON"@)
    } else {
        let c = cs[q];
        if c == 'n' {
            match literal_spec(cs, q, "null"@) {
                Ok(e) => Ok((JsonView::Null, e)),
                Err(m) => Err(m),
            }
        } else if c == 't' {
            match literal_spec(cs, q, "true"@) {
                Ok(e) => Ok((JsonView::Bool(true), e)),
                Err(m) => Err(m),
            }
        } else if c == 'f' {
            match literal_spec(cs, q, "false"@) {
                Ok(e) => Ok((JsonView::Bool(false), e)),
                Err(m) => Err(m),
            }
        } else if c == '"' {
            match string_spec(cs, q) {
                Ok((s, e)) => Ok((JsonView::Str(s), e)),
                Err(m) => Err(m),
            }
        } else if c == '[' {
            if d >= MAX_DEPTH {
                Err(too_deep())
            } else {
                array_spec(cs, q + 1, d)
            }
        } else if c == '{' {
            if d >= MAX_DEPTH {
                Err(too_deep())
            } else {
                object_spec(cs, q + 1, d)
            }
        } else if c == '-' || is_digit_char(c) {
            match number_spec(cs, q) {
                Ok((t, e)) => Ok((JsonView::Number(t), e)),
                Err(m) => Err(m),
            }
        } else {
            Err(
                "unexpected byte "@ + decimal_text(lead_byte(c)) + " at "@ + decimal_text(
                    offset(cs, q),
                ),
            )
        }
    }
}

/// An array at depth `d` whose opening bracket ends at `p`.
pub open spec fn array_spec(cs: Seq<char>, p: int, d: int) -> Result<(JsonView, int), Seq<char>>
    decreases MAX_DEPTH - d, 2int, 0int,
{
    let q = skip_ws(cs, p);
    if char_at_is(cs, q, ']') {
        Ok((JsonView::Array(Seq::empty()), q + 1))
    } else {
        elements_spec(cs, q, d, Seq::empty())
    }
}

/// The remaining elements of an array at depth `d`, after those in `acc`.
pub open spec fn elements_spec(cs: Seq<char>, p: int, d: int, acc: Seq<JsonView>) -> Result<
    (JsonView, int),
    Seq<char>,
>
    decreases MAX_DEPTH - d, 1int, cs.len() - p,
{
    if d >= MAX_DEPTH || p < 0 || p > cs.len() {
        Err(too_deep())
    } else {
        match value_spec(cs, p, d + 1) {
            Err(m) => Err(m),
            Ok((v, p2)) => {
                let p3 = skip_ws(cs, p2);
                if p2 <= p || p3 < p2 {
                    Err(too_deep())
                } else if char_at_is(cs, p3, ',') {
                    elements_spec(cs, p3 + 1, d, acc.push(v))
                } else if char_at_is(cs, p3, ']') {
                    Ok((JsonView::Array(acc.push(v)), p3 + 1))
                } else {
                    Err(at_byte("expected ',' or ']' at byte "@, cs, p3))
                }
            },
        }
    }
}

/// An object at depth `d` whose opening brace ends at `p`.
pub open spec fn object_spec(cs: Seq<char>, p: int, d: int) -> Result<(JsonView, int), Seq<char>>
    decreases MAX_DEPTH - d, 2int, 0int,
{
    let q = skip_ws(cs, p);
    if char_at_is(cs, q, '}') {
        Ok((JsonView::Object(Seq::empty()), q + 1))
    } else {
        members_spec(cs, q, d, Seq::empty())
    }
}

pub open spec fn has_key(acc: Seq<(Seq<char>, JsonView)>, key: Seq<char>) -> bool {
    exists|i: int| 0 <= i < acc.len() && #[trigger] acc[i].0 == key
}

/// The remaining members of an object at depth `d`, after those in `acc`.
pub open spec fn members_spec(
    cs: Seq<char>,
    p: int,
    d: int,
    acc: Seq<(Seq<char>, JsonView)>,
) -> Result<(JsonView, int), Seq<char>>
    decreases MAX_DEPTH - d, 1int, cs.len() - p,
{
    if d >= MAX_DEPTH || p < 0 || p > cs.len() {
        Err(too_deep())
    } else {
        let q = skip_ws(cs, p);
        if !char_at_is(cs, q, '"') {
            Err(at_byte("expected object key at byte "@, cs, q))
        } else {
            match string_spec(cs, q) {
                Err(m) => Err(m),
                Ok((key, q2)) => {
                    let q3 = skip_ws(cs, q2);
                    if !char_at_is(cs, q3, ':') {
                        Err(at_byte("expected ':' at byte "@, cs, q3))
                    } else {
                        match value_spec(cs, q3 + 1, d + 1) {
                            Err(m) => Err(m),
                            Ok((v, q4)) => if has_key(acc, key) {
                                Err("duplicate object key"@)
                            } else {
                                let q5 = skip_ws(cs, q4);
                                if q4 <= p || q5 < q4 {
                                    Err(too_deep())
                                } else if char_at_is(cs, q5, ',') {
                                    members_spec(cs, q5 + 1, d, acc.push((key, v)))
                                } else if char_at_is(cs, q5, '}') {
                                    Ok((JsonView::Object(acc.push((key, v))), q5 + 1))
                                } else {
                                    Err(at_byte("expected ',' or '}' at byte "@, cs, q5))
                                }
                            },
                        }
                    }
                },
            }
        }
    }
}

pub proof fn lemma_value_unfold(cs: Seq<char>, p: int, d: int)
    ensures
        value_spec(cs, p, d) == ({
    let q = skip_ws(cs, p);
    if q < 0 || q >= cs.len() {
        Err("unexpected end of JSON"@)
    } else {
        let c = cs[q];
        if c == 'n' {
            match literal_spec(cs, q, "null"@) {
                Ok(e) => Ok((JsonView::Null, e)),
                Err(m) => Err(m),
            }
        } else if c == 't' {
            match literal_spec(cs, q, "true"@) {
                Ok(e) => Ok((JsonView::Bool(true), e)),
                Err(m) => Err(m),
            }
        } else if c == 'f' {
            match literal_spec(cs, q, "false"@) {
                Ok(e) => Ok((JsonView::Bool(false), e)),
                Err(m) => Err(m),
            }
        } else if c == '"' {
            match string_spec(cs, q) {
                Ok((s, e)) => Ok((JsonView::Str(s), e)),
                Err(m) => Err(m),
            }
        } else if c == '[' {
            if d >= MAX_DEPTH {
                Err(too_deep())
            } else {
                array_spec(cs, q + 1, d)
            }
        } else if c == '{' {
            if d >= MAX_DEPTH {
                Err(too_deep())
            } else {
                object_spec(cs, q + 1, d)
            }
        } else if c == '-' || is_digit_char(c) {
            match number_spec(cs, q) {
                Ok((t, e)) => Ok((JsonView::Number(t), e)),
                Err(m) => Err(m),
            }
        } else {
            Err(
                "unexpected byte "@ + decimal_text(lead_byte(c)) + " at "@ + decimal_text(
                    offset(cs, q),
                ),
            )
        }
    }
        }),
{
}

pub proof fn lemma_array_unfold(cs: Seq<char>, p: int, d: int)
    requires
        0 <= d <= MAX_DEPTH,
    ensures
        array_spec(cs, p, d) == ({
    let q = skip_ws(cs, p);
    if char_at_is(cs, q, ']') {
        Ok((JsonView::Array(Seq::empty()), q + 1))
    } else {
        elements_spec(cs, q, d, Seq::empty())
    }
        }),
{
    
}

pub proof fn lemma_elements_unfold(cs: Seq<char>, p: int, d: int, acc: Seq<JsonView>)
    requires
        0 <= d <= MAX_DEPTH,
    ensures
        elements_spec(cs, p, d, acc) == ({
    if d >= MAX_DEPTH || p < 0 || p > cs.len() {
        Err(too_deep())
    } else {
        match value_spec(cs, p, d + 1) {
            Err(m) => Err(m),
            Ok((v, p2)) => {
                let p3 = skip_ws(cs, p2);
                if p2 <= p || p3 < p2 {
                    Err(too_deep())
                } else if char_at_is(cs, p3, ',') {
                    elements_spec(cs, p3 + 1, d, acc.push(v))
                } else if char_at_is(cs, p3, ']') {
                    Ok((JsonView::Array(acc.push(v)), p3 + 1))
                } else {
                    Err(at_byte("expected ',' or ']' at byte "@, cs, p3))
                }
            },
        }
    }
        }),
{
}

pub proof fn lemma_object_unfold(cs: Seq<char>, p: int, d: int)
    requires
        0 <= d <= MAX_DEPTH,
    ensures
        object_spec(cs, p, d) == ({
    let q = skip_ws(cs, p);
    if char_at_is(cs, q, '}') {
        Ok((JsonView::Object(Seq::empty()), q + 1))
    } else {
        members_spec(cs, q, d, Seq::empty())
    }
        }),
{
    
}

pub proof fn lemma_members_unfold(cs: Seq<char>, p: int, d: int, acc: Seq<(Seq<char>, JsonView)>)
    requires
        0 <= d <= MAX_DEPTH,
    ensures
        members_spec(cs, p, d, acc) == ({
    if d >= MAX_DEPTH || p < 0 || p > cs.len() {
        Err(too_deep())
    } else {
        let q = skip_ws(cs, p);
        if !char_at_is(cs, q, '"') {
            Err(at_byte("expected object key at byte "@, cs, q))
        } else {
            match string_spec(cs, q) {
                Err(m) => Err(m),
                Ok((key, q2)) => {
                    let q3 = skip_ws(cs, q2);
                    if !char_at_is(cs, q3, ':') {
                        Err(at_byte("expected ':' at byte "@, cs, q3))
                    } else {
                        match value_spec(cs, q3 + 1, d + 1) {
                            Err(m) => Err(m),
                            Ok((v, q4)) => if has_key(acc, key) {
                                Err("duplicate object key"@)
                            } else {
                                let q5 = skip_ws(cs, q4);
                                if q4 <= p || q5 < q4 {
                                    Err(too_deep())
                                } else if char_at_is(cs, q5, ',') {
                                    members_spec(cs, q5 + 1, d, acc.push((key, v)))
                                } else if char_at_is(cs, q5, '}') {
                                    Ok((JsonView::Object(acc.push((key, v))), q5 + 1))
                                } else {
                                    Err(at_byte("expected ',' or '}' at byte "@, cs, q5))
                                }
                            },
                        }
                    }
                },
            }
        }
    }
        }),
{
}

/// A whole document: one value, optionally surrounded by whitespace.
pub open spec fn document_spec(cs: Seq<char>) -> Result<JsonView, Seq<char>> {
    match value_spec(cs, 0, 0) {
        Err(m) => Err(m),
        Ok((v, p)) => {
            let q = skip_ws(cs, p);
            if q != cs.len() {
                Err(at_byte("unexpected trailing JSON at byte "@, cs, q))
            } else {
                Ok(v)
            }
        },
    }
}

/// Opening brackets from `p` on, enough of them to pass the depth bound from
/// depth `d`, make the value too deep, whatever follows them.
pub proof fn lemma_brackets_too_deep(cs: Seq<char>, p: int, d: int)
    requires
        0 <= d <= MAX_DEPTH,
        0 <= p,
        p + (MAX_DEPTH - d) < cs.len(),
        forall|i: int| p <= i <= p + (MAX_DEPTH - d) ==> #[trigger] cs[i] == '[',
    ensures
        value_spec(cs, p, d) == Err::<(JsonView, int), Seq<char>>(too_deep()),
    decreases MAX_DEPTH - d,
{
    lemma_value_unfold(cs, p, d);
    assert(cs[p] == '[');
    assert(skip_ws(cs, p) == p);
    if d < MAX_DEPTH {
        lemma_array_unfold(cs, p + 1, d);
        assert(cs[p + 1] == '[');
        assert(skip_ws(cs, p + 1) == p + 1);
        lemma_elements_unfold(cs, p + 1, d, Seq::empty());
        lemma_brackets_too_deep(cs, p + 1, d + 1);
    }
}

/// A document that opens more than `MAX_DEPTH` brackets in a row is refused
/// as too deep, whatever follows them.
pub proof fn law_nesting_is_bounded(cs: Seq<char>)
    requires
        cs.len() > MAX_DEPTH,
        forall|i: int| 0 <= i <= MAX_DEPTH ==> #[trigger] cs[i] == '[',
    ensures
        document_spec(cs) == Err::<JsonView, Seq<char>>(too_deep()),
{
    lemma_brackets_too_deep(cs, 0, 0);
}

/// The names of a member list, in order.
pub open spec fn member_names(es: Seq<(Seq<char>, JsonView)>) -> Seq<Seq<char>> {
    es.map_values(|e: (Seq<char>, JsonView)| e.0)
}

/// Every object in the value, at any depth, has distinct member names.
pub open spec fn keys_distinct(j: JsonView) -> bool
    decreases j, 2int, 0int,
{
    match j {
        JsonView::Array(items) => items_distinct(items),
        JsonView::Object(es) => member_names(es).no_duplicates() && members_distinct(es),
        _ => true,
    }
}

/// `keys_distinct` holds of every item.
pub open spec fn items_distinct(s: Seq<JsonView>) -> bool
    decreases s, 1int, s.len(),
{
    if s.len() == 0 {
        true
    } else {
        items_distinct(s.subrange(0, s.len() - 1)) && keys_distinct(s[s.len() - 1])
    }
}

/// `keys_distinct` holds of every member's value.
pub open spec fn members_distinct(s: Seq<(Seq<char>, JsonView)>) -> bool
    decreases s, 1int, s.len(),
{
    if s.len() == 0 {
        true
    } else {
        members_distinct(s.subrange(0, s.len() - 1)) && keys_distinct(s[s.len() - 1].1)
    }
}

proof fn lemma_value_keys(cs: Seq<char>, p: int, d: int)
    requires
        0 <= d <= MAX_DEPTH,
    ensures
        value_spec(cs, p, d) matches Ok((j, _)) ==> keys_distinct(j),
    decreases MAX_DEPTH - d, 3int, 0int,
{
    lemma_value_unfold(cs, p, d);
    let q = skip_ws(cs, p);
    if 0 <= q < cs.len() && d < MAX_DEPTH {
        if cs[q] == '[' {
            lemma_array_keys(cs, q + 1, d);
        } else if cs[q] == '{' {
            lemma_object_keys(cs, q + 1, d);
        }
    }
}

proof fn lemma_array_keys(cs: Seq<char>, p: int, d: int)
    requires
        0 <= d < MAX_DEPTH,
    ensures
        array_spec(cs, p, d) matches Ok((j, _)) ==> keys_distinct(j),
    decreases MAX_DEPTH - d, 2int, 0int,
{
    lemma_array_unfold(cs, p, d);
    let q = skip_ws(cs, p);
    if !char_at_is(cs, q, ']') {
        lemma_elements_keys(cs, q, d, Seq::empty());
    }
}

proof fn lemma_elements_keys(cs: Seq<char>, p: int, d: int, acc: Seq<JsonView>)
    requires
        0 <= d <= MAX_DEPTH,
        items_distinct(acc),
    ensures
        elements_spec(cs, p, d, acc) matches Ok((j, _)) ==> keys_distinct(j),
    decreases MAX_DEPTH - d, 1int, cs.len() - p,
{
    lemma_elements_unfold(cs, p, d, acc);
    if !(d >= MAX_DEPTH || p < 0 || p > cs.len()) {
        lemma_value_keys(cs, p, d + 1);
        match value_spec(cs, p, d + 1) {
            Ok((v, p2)) => {
                let p3 = skip_ws(cs, p2);
                let more = acc.push(v);
                assert(more.subrange(0, acc.len() as int) =~= acc);
                if p2 > p && p3 >= p2 && char_at_is(cs, p3, ',') {
                    lemma_elements_keys(cs, p3 + 1, d, more);
                }
            },
            Err(_) => {},
        }
    }
}

proof fn lemma_object_keys(cs: Seq<char>, p: int, d: int)
    requires
        0 <= d < MAX_DEPTH,
    ensures
        object_spec(cs, p, d) matches Ok((j, _)) ==> keys_distinct(j),
    decreases MAX_DEPTH - d, 2int, 0int,
{
    lemma_object_unfold(cs, p, d);
    let q = skip_ws(cs, p);
    if !char_at_is(cs, q, '}') {
        assert(member_names(Seq::<(Seq<char>, JsonView)>::empty()) =~= Seq::<Seq<char>>::empty());
        lemma_members_keys(cs, q, d, Seq::empty());
    } else {
        assert(member_names(Seq::<(Seq<char>, JsonView)>::empty()) =~= Seq::<Seq<char>>::empty());
    }
}

proof fn lemma_members_keys(cs: Seq<char>, p: int, d: int, acc: Seq<(Seq<char>, JsonView)>)
    requires
        0 <= d <= MAX_DEPTH,
        member_names(acc).no_duplicates(),
        members_distinct(acc),
    ensures
        members_spec(cs, p, d, acc) matches Ok((j, _)) ==> keys_distinct(j),
    decreases MAX_DEPTH - d, 1int, cs.len() - p,
{
    lemma_members_unfold(cs, p, d, acc);
    if !(d >= MAX_DEPTH || p < 0 || p > cs.len()) {
        let q = skip_ws(cs, p);
        if char_at_is(cs, q, '"') {
            match string_spec(cs, q) {
                Ok((key, q2)) => {
                    let q3 = skip_ws(cs, q2);
                    if char_at_is(cs, q3, ':') {
                        lemma_value_keys(cs, q3 + 1, d + 1);
                        match value_spec(cs, q3 + 1, d + 1) {
                            Ok((v, q4)) => {
                                if !has_key(acc, key) {
                                    let more = acc.push((key, v));
                                    assert(member_names(more) =~= member_names(acc).push(key));
                                    assert forall|i: int|
                                        0 <= i < member_names(acc).len() implies member_names(
                                        acc,
                                    )[i] != key by {
                                        assert(acc[i].0 == member_names(acc)[i]);
                                    }
                                    assert(member_names(more).no_duplicates());
                                    assert(more.subrange(0, acc.len() as int) =~= acc);
                                    let q5 = skip_ws(cs, q4);
                                    if q4 > p && q5 >= q4 && char_at_is(cs, q5, ',') {
                                        lemma_members_keys(cs, q5 + 1, d, more);
                                    }
                                }
                            },
                            Err(_) => {},
                        }
                    }
                },
                Err(_) => {},
            }
        }
    }
}

/// Every number in the value, at any depth, is a finite binary64.
pub open spec fn numbers_finite(j: JsonView) -> bool
    decreases j, 2int, 0int,
{
    match j {
        JsonView::Array(items) => items_finite(items),
        JsonView::Object(es) => members_finite(es),
        JsonView::Number(t) => number_finite(t),
        _ => true,
    }
}

/// `numbers_finite` holds of every item.
pub open spec fn items_finite(s: Seq<JsonView>) -> bool
    decreases s, 1int, s.len(),
{
    if s.len() == 0 {
        true
    } else {
        items_finite(s.subrange(0, s.len() - 1)) && numbers_finite(s[s.len() - 1])
    }
}

/// `numbers_finite` holds of every member's value.
pub open spec fn members_finite(s: Seq<(Seq<char>, JsonView)>) -> bool
    decreases s, 1int, s.len(),
{
    if s.len() == 0 {
        true
    } else {
        members_finite(s.subrange(0, s.len() - 1)) && numbers_finite(s[s.len() - 1].1)
    }
}

proof fn lemma_value_numbers(cs: Seq<char>, p: int, d: int)
    requires
        0 <= d <= MAX_DEPTH,
    ensures
        value_spec(cs, p, d) matches Ok((j, _)) ==> numbers_finite(j),
    decreases MAX_DEPTH - d, 3int, 0int,
{
    lemma_value_unfold(cs, p, d);
    let q = skip_ws(cs, p);
    if 0 <= q < cs.len() && d < MAX_DEPTH {
        if cs[q] == '[' {
            lemma_array_numbers(cs, q + 1, d);
        } else if cs[q] == '{' {
            lemma_object_numbers(cs, q + 1, d);
        }
    }
}

proof fn lemma_array_numbers(cs: Seq<char>, p: int, d: int)
    requires
        0 <= d < MAX_DEPTH,
    ensures
        array_spec(cs, p, d) matches Ok((j, _)) ==> numbers_finite(j),
    decreases MAX_DEPTH - d, 2int, 0int,
{
    lemma_array_unfold(cs, p, d);
    let q = skip_ws(cs, p);
    if !char_at_is(cs, q, ']') {
        lemma_elements_numbers(cs, q, d, Seq::empty());
    }
}

proof fn lemma_elements_numbers(cs: Seq<char>, p: int, d: int, acc: Seq<JsonView>)
    requires
        0 <= d <= MAX_DEPTH,
        items_finite(acc),
    ensures
        elements_spec(cs, p, d, acc) matches Ok((j, _)) ==> numbers_finite(j),
    decreases MAX_DEPTH - d, 1int, cs.len() - p,
{
    lemma_elements_unfold(cs, p, d, acc);
    if !(d >= MAX_DEPTH || p < 0 || p > cs.len()) {
        lemma_value_numbers(cs, p, d + 1);
        match value_spec(cs, p, d + 1) {
            Ok((v, p2)) => {
                let p3 = skip_ws(cs, p2);
                let more = acc.push(v);
                assert(more.subrange(0, acc.len() as int) =~= acc);
                if p2 > p && p3 >= p2 && char_at_is(cs, p3, ',') {
                    lemma_elements_numbers(cs, p3 + 1, d, more);
                }
            },
            Err(_) => {},
        }
    }
}

proof fn lemma_object_numbers(cs: Seq<char>, p: int, d: int)
    requires
        0 <= d < MAX_DEPTH,
    ensures
        object_spec(cs, p, d) matches Ok((j, _)) ==> numbers_finite(j),
    decreases MAX_DEPTH - d, 2int, 0int,
{
    lemma_object_unfold(cs, p, d);
    let q = skip_ws(cs, p);
    if !char_at_is(cs, q, '}') {
        lemma_members_numbers(cs, q, d, Seq::empty());
    }
}

proof fn lemma_members_numbers(cs: Seq<char>, p: int, d: int, acc: Seq<(Seq<char>, JsonView)>)
    requires
        0 <= d <= MAX_DEPTH,
        members_finite(acc),
    ensures
        members_spec(cs, p, d, acc) matches Ok((j, _)) ==> numbers_finite(j),
    decreases MAX_DEPTH - d, 1int, cs.len() - p,
{
    lemma_members_unfold(cs, p, d, acc);
    if !(d >= MAX_DEPTH || p < 0 || p > cs.len()) {
        let q = skip_ws(cs, p);
        if char_at_is(cs, q, '"') {
            match string_spec(cs, q) {
                Ok((key, q2)) => {
                    let q3 = skip_ws(cs, q2);
                    if char_at_is(cs, q3, ':') {
                        lemma_value_numbers(cs, q3 + 1, d + 1);
                        match value_spec(cs, q3 + 1, d + 1) {
                            Ok((v, q4)) => {
                                if !has_key(acc, key) {
                                    let more = acc.push((key, v));
                                    assert(more.subrange(0, acc.len() as int) =~= acc);
                                    let q5 = skip_ws(cs, q4);
                                    if q4 > p && q5 >= q4 && char_at_is(cs, q5, ',') {
                                        lemma_members_numbers(cs, q5 + 1, d, more);
                                    }
                                }
                            },
                            Err(_) => {},
                        }
                    }
                },
                Err(_) => {},
            }
        }
    }
}

/// Every object in a parsed document, at any depth, has distinct member
/// names: a repeated name is refused.
pub proof fn law_parsed_keys_are_distinct(cs: Seq<char>)
    ensures
        document_spec(cs) matches Ok(j) ==> keys_distinct(j),
{
    lemma_value_keys(cs, 0, 0);
}

/// Every number in a parsed document, at any depth, is a finite binary64:
/// a number that overflows is refused.
pub proof fn law_parsed_numbers_are_finite(cs: Seq<char>)
    ensures
        document_spec(cs) matches Ok(j) ==> numbers_finite(j),
{
    lemma_value_numbers(cs, 0, 0);
}

/// A parsed JSON value.  Numbers keep their literal text.
#[derive(Debug)]
pub enum Value {
    Null,
    Bool(bool),
    Number(String),
    String(String),
    Array(Vec<Value>),
    Object(Object),
}

/// The members of a JSON object, in document order.  Those of an object
/// that `parse` builds have distinct keys (`keys_distinct`).
#[derive(Debug)]
pub struct Object {
    pub entries: Vec<(String, Value)>,
}

/// The first position of `k` in `ks`, if it occurs.
pub open spec fn first_index(ks: Seq<Seq<char>>, k: Seq<char>) -> Option<int> {
    if ks.contains(k) {
        Some(
            choose|i: int|
                0 <= i < ks.len() && ks[i] == k && forall|j: int| 0 <= j < i ==> ks[j] != k,
        )
    } else {
        None
    }
}

/// Pins down `first_index` once a first occurrence is known.
pub proof fn lemma_first_index(ks: Seq<Seq<char>>, k: Seq<char>, i: int)
    requires
        0 <= i < ks.len(),
        ks[i] == k,
        forall|j: int| 0 <= j < i ==> ks[j] != k,
    ensures
        first_index(ks, k) == Some(i),
{
    assert(ks.contains(k));
    let c = choose|c: int|
        0 <= c < ks.len() && ks[c] == k && forall|j: int| 0 <= j < c ==> ks[j] != k;
    assert(0 <= c < ks.len() && ks[c] == k && forall|j: int| 0 <= j < c ==> ks[j] != k);
    if c < i {
        assert(ks[c] != k);
    }
    if c > i {
        assert(ks[i] != k);
    }
}

/// The keys of a member list, in order.
pub open spec fn keys_of(es: Seq<(String, Value)>) -> Seq<Seq<char>> {
    es.map_values(|e: (String, Value)| e.0@)
}

/// A JSON number text, as the grammar reads it, and nothing more.
pub open spec fn json_number_text(t: Seq<char>) -> bool {
    number_end(t, 0) == Some(t.len() as int)
}

impl Object {
    /// The keys, in document order.
    pub open spec fn key_seq(&self) -> Seq<Seq<char>> {
        keys_of(self.entries@)
    }

    pub fn len(&self) -> (n: usize)
        ensures
            n == self.entries@.len(),
    {
        self.entries.len()
    }

    /// Position of the first member named `key`.
    fn find(&self, key: &str) -> (r: Option<usize>)
        ensures
            r is None <==> first_index(self.key_seq(), key@) is None,
            r matches Some(i) ==> first_index(self.key_seq(), key@) == Some(i as int) && i
                < self.entries@.len(),
    {
        let mut k: usize = 0;
        while k < self.entries.len()
            invariant
                k <= self.entries@.len(),
                forall|j: int| 0 <= j < k ==> self.key_seq()[j] != key@,
            decreases self.entries@.len() - k,
        {
            if str_eq(self.entries[k].0.as_str(), key) {
                proof {
                    lemma_first_index(self.key_seq(), key@, k as int);
                }
                return Some(k);
            }
            k = k + 1;
        }
        proof {
            if self.key_seq().contains(key@) {
                let j = choose|j: int| 0 <= j < self.key_seq().len() && self.key_seq()[j] == key@;
                assert(self.key_seq()[j] != key@);
            }
        }
        None
    }

    /// Whether some member is named `key`.
    pub fn contains_key(&self, key: &str) -> (r: bool)
        ensures
            r == self.key_seq().contains(key@),
    {
        self.find(key).is_some()
    }

    /// Takes out the member named `key`, keeping the others in order.
    pub fn remove(&mut self, key: &str) -> (r: Option<Value>)
        ensures
            match first_index(old(self).key_seq(), key@) {
                Some(i) => r == Some(old(self).entries@[i].1) && final(self).entries@ == old(
                    self,
                ).entries@.remove(i),
                None => r is None && final(self).entries@ == old(self).entries@,
            },
    {
        match self.find(key) {
            Some(i) => {
                let entry = self.entries.remove(i);
                Some(entry.1)
            },
            None => None,
        }
    }
}

pub open spec fn view_value(v: Value) -> JsonView
    decreases v, 2int, 0int,
{
    match v {
        Value::Null => JsonView::Null,
        Value::Bool(b) => JsonView::Bool(b),
        Value::Number(t) => JsonView::Number(t@),
        Value::String(s) => JsonView::Str(s@),
        Value::Array(items) => JsonView::Array(view_items(items@)),
        Value::Object(o) => JsonView::Object(view_entries(o.entries@)),
    }
}

pub open spec fn view_items(s: Seq<Value>) -> Seq<JsonView>
    decreases s, 1int, s.len(),
{
    if s.len() == 0 {
        Seq::empty()
    } else {
        view_items(s.subrange(0, s.len() - 1)).push(view_value(s[s.len() - 1]))
    }
}

pub open spec fn view_entries(s: Seq<(String, Value)>) -> Seq<(Seq<char>, JsonView)>
    decreases s, 1int, s.len(),
{
    if s.len() == 0 {
        Seq::empty()
    } else {
        view_entries(s.subrange(0, s.len() - 1)).push(
            (s[s.len() - 1].0@, view_value(s[s.len() - 1].1)),
        )
    }
}

pub proof fn lemma_view_items_push(s: Seq<Value>, v: Value)
    ensures
        view_items(s.push(v)) == view_items(s).push(view_value(v)),
{
    assert(s.push(v).subrange(0, s.len() as int) =~= s);
}

pub proof fn lemma_view_entries_push(s: Seq<(String, Value)>, e: (String, Value))
    ensures
        view_entries(s.push(e)) == view_entries(s).push((e.0@, view_value(e.1))),
{
    assert(s.push(e).subrange(0, s.len() as int) =~= s);
}

pub proof fn lemma_view_entries_keys(s: Seq<(String, Value)>, i: int)
    requires
        0 <= i < s.len(),
    ensures
        view_entries(s).len() == s.len(),
        view_entries(s)[i].0 == s[i].0@,
    decreases s.len(),
{
    if i < s.len() - 1 {
        lemma_view_entries_keys(s.subrange(0, s.len() - 1), i);
    } else {
        lemma_view_entries_len(s.subrange(0, s.len() - 1));
    }
}

pub proof fn lemma_view_entries_len(s: Seq<(String, Value)>)
    ensures
        view_entries(s).len() == s.len(),
    decreases s.len(),
{
    if s.len() > 0 {
        lemma_view_entries_len(s.subrange(0, s.len() - 1));
    }
}

/// A JSON error carrying exactly the given detail.
pub open spec fn json_with(e: Error, msg: Seq<char>) -> bool {
    match e {
        Error::Json(m) => m@ == msg,
        _ => false,
    }
}

fn json_error(msg: &str) -> (e: Error)
    ensures
        json_with(e, msg@),
{
    Error::Json(String::from_str(msg))
}

fn json_error_at(prefix: &str, cs: &Vec<char>, p: usize) -> (e: Error)
    requires
        p <= cs@.len(),
    ensures
        json_with(e, at_byte(prefix@, cs@, p as int)),
{
    let mut s = String::from_str(prefix);
    let off = byte_offset(cs, p);
    push_decimal(&mut s, off);
    Error::Json(s)
}

/// `char::from_u32` from std: the character with that scalar value, if any.
#[verifier::external_body]
fn char_from_u32(u: u32) -> (r: Option<char>)
    ensures
        vstd::utf8::is_scalar(u) ==> r == Some(u as char),
        !vstd::utf8::is_scalar(u) ==> r is None,
{
    char::from_u32(u)
}

fn hex_digit(c: char) -> (r: Option<u16>)
    ensures
        match hex_value(c) {
            Some(v) => r == Some(v as u16),
            None => r is None,
        },
{
    if '0' <= c && c <= '9' {
        Some((c as u32 - '0' as u32) as u16)
    } else if 'a' <= c && c <= 'f' {
        Some((c as u32 - 'a' as u32 + 10) as u16)
    } else if 'A' <= c && c <= 'F' {
        Some((c as u32 - 'A' as u32 + 10) as u16)
    } else {
        None
    }
}

fn lead_byte_of(c: char) -> (b: u128)
    ensures
        b == lead_byte(c),
{
    let u = c as u32 as u128;
    if u < 0x80 {
        u
    } else if u < 0x800 {
        0xC0 + u / 64
    } else if u < 0x10000 {
        0xE0 + u / 4096
    } else {
        0xF0 + u / 262144
    }
}

fn is_ws_char(c: char) -> (b: bool)
    ensures
        b == is_json_ws(c),
{
    c == ' ' || c == '\n' || c == '\r' || c == '\t'
}

/// Whether some entry already has this key.
fn contains_key_in(entries: &Vec<(String, Value)>, key: &String) -> (r: bool)
    ensures
        r == has_key(view_entries(entries@), key@),
{
    let mut k: usize = 0;
    while k < entries.len()
        invariant
            k <= entries@.len(),
            forall|j: int| 0 <= j < k ==> entries@[j].0@ != key@,
        decreases entries@.len() - k,
    {
        if entries[k].0 == *key {
            proof {
                lemma_view_entries_keys(entries@, k as int);
                assert(view_entries(entries@)[k as int].0 == key@);
            }
            return true;
        }
        k = k + 1;
    }
    proof {
        lemma_view_entries_len(entries@);
        if has_key(view_entries(entries@), key@) {
            let j = choose|j: int|
                0 <= j < view_entries(entries@).len() && #[trigger] view_entries(entries@)[j].0
                    == key@;
            lemma_view_entries_keys(entries@, j);
        }
    }
    false
}

/// A recursive-descent reader over the characters of one document.
struct Parser {
    chars: Vec<char>,
    pos: usize,
}

impl Parser {
    fn ws(&mut self)
        requires
            old(self).pos <= old(self).chars@.len(),
        ensures
            final(self).chars@ == old(self).chars@,
            final(self).pos == skip_ws(old(self).chars@, old(self).pos as int),
            final(self).pos <= final(self).chars@.len(),
    {
        let ghost cs = self.chars@;
        let ghost p0 = self.pos as int;
        while self.pos < self.chars.len() && is_ws_char(self.chars[self.pos])
            invariant
                self.chars@ == cs,
                p0 <= self.pos <= cs.len(),
                skip_ws(cs, p0) == skip_ws(cs, self.pos as int),
            decreases cs.len() - self.pos,
        {
            self.pos = self.pos + 1;
        }
    }

    fn literal(&mut self, expected: &str) -> (r: Result<(), Error>)
        requires
            old(self).pos <= old(self).chars@.len(),
        ensures
            final(self).chars@ == old(self).chars@,
            final(self).pos <= final(self).chars@.len(),
            match r {
                Ok(()) => literal_spec(old(self).chars@, old(self).pos as int, expected@) == Ok::<
                    int,
                    Seq<char>,
                >(final(self).pos as int),
                Err(e) => literal_spec(old(self).chars@, old(self).pos as int, expected@) matches Err(
                    m,
                ) && json_with(e, m),
            },
    {
        let lit = crate::text::chars_of(expected);
        let n = lit.len();
        let start = self.pos;
        if n > self.chars.len() - start {
            return Err(json_error_at("invalid literal at byte ", &self.chars, start));
        }
        let mut i: usize = 0;
        let ghost cs = self.chars@;
        let len = self.chars.len();
        while i < n
            invariant
                len == self.chars@.len(),
                self.chars@ == cs,
                cs == old(self).chars@,
                self.pos == start,
                start == old(self).pos,
                start + n <= self.chars@.len(),
                lit@ == expected@,
                n == lit@.len(),
                i <= n,
                forall|j: int| 0 <= j < i ==> self.chars@[start + j] == lit@[j],
            decreases n - i,
        {
            if self.chars[start + i] != lit[i] {
                proof {
                    assert(self.chars@.subrange(start as int, start + n)[i as int] != lit@[i as int]);
                }
                return Err(json_error_at("invalid literal at byte ", &self.chars, start));
            }
            i = i + 1;
        }
        assert(self.chars@.subrange(start as int, start + n) =~= expected@);
        self.pos = start + n;
        Ok(())
    }

    fn hex4(&mut self) -> (r: Result<u16, Error>)
        requires
            old(self).pos <= old(self).chars@.len(),
        ensures
            final(self).chars@ == old(self).chars@,
            final(self).pos <= final(self).chars@.len(),
            match r {
                Ok(n) => hex4_spec(old(self).chars@, old(self).pos as int) == Ok::<
                    nat,
                    Seq<char>,
                >(n as nat) && final(self).pos == old(self).pos + 4,
                Err(e) => hex4_spec(old(self).chars@, old(self).pos as int) matches Err(m)
                    && json_with(e, m),
            },
    {
        proof {
            reveal(hex4_spec);
        }
        let p = self.pos;
        if !crate::text::bytes_available(&self.chars, p, 4) {
            return Err(json_error("short unicode escape"));
        }
        if self.chars.len() - p < 4 {
            return Err(json_error("invalid unicode escape"));
        }
        let h0 = hex_digit(self.chars[p]);
        let h1 = hex_digit(self.chars[p + 1]);
        let h2 = hex_digit(self.chars[p + 2]);
        let h3 = hex_digit(self.chars[p + 3]);
        match (h0, h1, h2, h3) {
            (Some(a), Some(b), Some(c), Some(d)) => {
                self.pos = p + 4;
                Ok(((a * 16 + b) * 16 + c) * 16 + d)
            },
            _ => Err(json_error("invalid unicode escape")),
        }
    }

    /// The end of the number grammar at the current position, if it matches.
    fn scan_number(&mut self) -> (r: Option<usize>)
        requires
            old(self).pos <= old(self).chars@.len(),
        ensures
            final(self).chars@ == old(self).chars@,
            match number_end(old(self).chars@, old(self).pos as int) {
                Some(e) => r == Some(e as usize) && old(self).pos <= e <= old(self).chars@.len(),
                None => r is None,
            },
    {
        let ghost cs = self.chars@;
        let start = self.pos;
        let len = self.chars.len();
        if self.pos < len && self.chars[self.pos] == '-' {
            self.pos = self.pos + 1;
        }
        let q = self.pos;
        if q < len && self.chars[q] == '0' {
            self.pos = q + 1;
        } else if q < len && '1' <= self.chars[q] && self.chars[q] <= '9' {
            self.pos = q + 1;
            self.skip_digits();
        } else {
            return None;
        }
        let q1 = self.pos;
        if q1 < len && self.chars[q1] == '.' {
            self.pos = q1 + 1;
            self.skip_digits();
            if self.pos == q1 + 1 {
                return None;
            }
        }
        let q2 = self.pos;
        if q2 < len && (self.chars[q2] == 'e' || self.chars[q2] == 'E') {
            self.pos = q2 + 1;
            if self.pos < len && (self.chars[self.pos] == '+' || self.chars[self.pos] == '-') {
                self.pos = self.pos + 1;
            }
            let r = self.pos;
            self.skip_digits();
            if self.pos == r {
                return None;
            }
        }
        assert(number_end(cs, start as int) == Some(self.pos as int));
        Some(self.pos)
    }

    fn number(&mut self) -> (r: Result<Value, Error>)
        requires
            old(self).pos < old(self).chars@.len(),
        ensures
            final(self).chars@ == old(self).chars@,
            final(self).pos <= final(self).chars@.len(),
            match r {
                Ok(v) => (number_spec(old(self).chars@, old(self).pos as int) matches Ok((t, e))
                    && v == Value::Number(v->Number_0) && v->Number_0@ == t && e == final(self).pos)
                    && final(self).pos > old(self).pos,
                Err(e) => number_spec(old(self).chars@, old(self).pos as int) matches Err(m)
                    && json_with(e, m),
            },
    {
        let ghost cs = self.chars@;
        let start = self.pos;
        let len = self.chars.len();
        if self.chars[self.pos] == '-' {
            self.pos = self.pos + 1;
        }
        let q = self.pos;
        if q < len && self.chars[q] == '0' {
            self.pos = q + 1;
        } else if q < len && '1' <= self.chars[q] && self.chars[q] <= '9' {
            self.pos = q + 1;
            self.skip_digits();
        } else {
            return Err(json_error_at("invalid number at byte ", &self.chars, start));
        }
        let q1 = self.pos;
        if q1 < len && self.chars[q1] == '.' {
            self.pos = q1 + 1;
            self.skip_digits();
            if self.pos == q1 + 1 {
                return Err(json_error_at("invalid number at byte ", &self.chars, start));
            }
        }
        let q2 = self.pos;
        if q2 < len && (self.chars[q2] == 'e' || self.chars[q2] == 'E') {
            self.pos = q2 + 1;
            if self.pos < len && (self.chars[self.pos] == '+' || self.chars[self.pos] == '-') {
                self.pos = self.pos + 1;
            }
            let r = self.pos;
            self.skip_digits();
            if self.pos == r {
                return Err(json_error_at("invalid number at byte ", &self.chars, start));
            }
        }
        let end = self.pos;
        assert(number_end(cs, start as int) == Some(end as int));
        if !number_is_finite(&self.chars, start, end) {
            return Err(json_error("non-finite JSON number"));
        }
        let mut text = String::new();
        let mut i = start;
        while i < end
            invariant
                start <= i <= end <= self.chars@.len(),
                text@ == self.chars@.subrange(start as int, i as int),
            decreases end - i,
        {
            push_char(&mut text, self.chars[i]);
            assert(self.chars@.subrange(start as int, i as int + 1) =~= self.chars@.subrange(
                start as int,
                i as int,
            ).push(self.chars@[i as int]));
            i = i + 1;
        }
        Ok(Value::Number(text))
    }

    #[verifier::rlimit(40)]
    fn string(&mut self) -> (r: Result<String, Error>)
        requires
            old(self).pos < old(self).chars@.len(),
            old(self).chars@[old(self).pos as int] == '"',
        ensures
            final(self).chars@ == old(self).chars@,
            final(self).pos <= final(self).chars@.len(),
            match r {
                Ok(t) => string_spec(old(self).chars@, old(self).pos as int) == Ok::<
                    (Seq<char>, int),
                    Seq<char>,
                >((t@, final(self).pos as int)) && final(self).pos > old(self).pos,
                Err(e) => string_spec(old(self).chars@, old(self).pos as int) matches Err(m)
                    && json_with(e, m),
            },
    {
        let ghost cs = self.chars@;
        let ghost p0 = self.pos as int;
        let len = self.chars.len();
        self.pos = self.pos + 1;
        let mut out = String::new();
        proof {
            reveal(string_body);
        }
        loop
            invariant
                self.chars@ == cs,
                cs == old(self).chars@,
                p0 == old(self).pos,
                len == cs.len(),
                p0 < self.pos <= len,
                string_spec(cs, p0) == string_body(cs, self.pos as int, out@),
            decreases len - self.pos,
        {
            let p = self.pos;
            proof {
                reveal(string_body);
            }
            if p >= len {
                return Err(json_error("unterminated JSON string"));
            }
            let b = self.chars[p];
            if b == '"' {
                self.pos = p + 1;
                return Ok(out);
            } else if b == '\\' {
                if p + 1 >= len {
                    return Err(json_error("unterminated escape"));
                }
                let esc = self.chars[p + 1];
                self.pos = p + 2;
                if esc == '"' {
                    push_char(&mut out, '"');
                } else if esc == '\\' {
                    push_char(&mut out, '\\');
                } else if esc == '/' {
                    push_char(&mut out, '/');
                } else if esc == 'b' {
                    push_char(&mut out, '\u{08}');
                } else if esc == 'f' {
                    push_char(&mut out, '\u{0c}');
                } else if esc == 'n' {
                    push_char(&mut out, '\n');
                } else if esc == 'r' {
                    push_char(&mut out, '\r');
                } else if esc == 't' {
                    push_char(&mut out, '\t');
                } else if esc == 'u' {
                    let first = self.hex4()?;
                    if 0xD800 <= first && first <= 0xDBFF {
                        let q = self.pos;
                        if !(2 <= len - q && self.chars[q] == '\\' && self.chars[q + 1] == 'u') {
                            return Err(json_error("high surrogate without low surrogate"));
                        }
                        self.pos = q + 2;
                        let second = self.hex4()?;
                        if !(0xDC00 <= second && second <= 0xDFFF) {
                            return Err(json_error("invalid low surrogate"));
                        }
                        let cp: u32 = 0x10000 + (first - 0xD800) as u32 * 1024 + (second
                            - 0xDC00) as u32;
                        proof {
                            assert(vstd::utf8::is_scalar(cp));
                        }
                        match char_from_u32(cp) {
                            Some(c) => push_char(&mut out, c),
                            None => {
                                return Err(json_error("invalid unicode escape"));
                            },
                        }
                    } else if 0xDC00 <= first && first <= 0xDFFF {
                        return Err(json_error("unpaired low surrogate"));
                    } else {
                        proof {
                            assert(vstd::utf8::is_scalar(first as u32));
                        }
                        match char_from_u32(first as u32) {
                            Some(c) => push_char(&mut out, c),
                            None => {
                                return Err(json_error("invalid unicode escape"));
                            },
                        }
                    }
                } else {
                    return Err(json_error("invalid string escape"));
                }
            } else if (b as u32) < 0x20 {
                return Err(json_error("control byte in JSON string"));
            } else {
                push_char(&mut out, b);
                self.pos = p + 1;
            }
        }
    }

    /// A value at nesting depth `depth`.
    fn value(&mut self, depth: usize) -> (r: Result<Value, Error>)
        requires
            old(self).pos <= old(self).chars@.len(),
            depth <= MAX_DEPTH,
        ensures
            final(self).chars@ == old(self).chars@,
            final(self).pos <= final(self).chars@.len(),
            match r {
                Ok(v) => value_spec(old(self).chars@, old(self).pos as int, depth as int) == Ok::<
                    (JsonView, int),
                    Seq<char>,
                >((view_value(v), final(self).pos as int)) && final(self).pos > old(self).pos,
                Err(e) => value_spec(old(self).chars@, old(self).pos as int, depth as int) matches Err(
                    m,
                ) && json_with(e, m),
            },
        decreases MAX_DEPTH - depth, 3int, 0int,
    {
        let ghost cs = self.chars@;
        let ghost p0 = self.pos as int;
        self.ws();
        proof {
            lemma_skip_ws_bounds(cs, p0);
            lemma_value_unfold(cs, p0, depth as int);
        }
        let q = self.pos;
        if q >= self.chars.len() {
            return Err(json_error("unexpected end of JSON"));
        }
        let c = self.chars[q];
        if c == 'n' {
            self.literal("null")?;
            proof {
                reveal_strlit("null");
            }
            Ok(Value::Null)
        } else if c == 't' {
            self.literal("true")?;
            proof {
                reveal_strlit("true");
            }
            Ok(Value::Bool(true))
        } else if c == 'f' {
            self.literal("false")?;
            proof {
                reveal_strlit("false");
            }
            Ok(Value::Bool(false))
        } else if c == '"' {
            let t = self.string()?;
            Ok(Value::String(t))
        } else if c == '[' {
            if depth >= MAX_DEPTH {
                return Err(json_error("JSON nesting is too deep"));
            }
            self.array(depth)
        } else if c == '{' {
            if depth >= MAX_DEPTH {
                return Err(json_error("JSON nesting is too deep"));
            }
            self.object(depth)
        } else if c == '-' || ('0' <= c && c <= '9') {
            self.number()
        } else {
            let mut msg = String::from_str("unexpected byte ");
            push_decimal(&mut msg, lead_byte_of(c));
            msg.append(" at ");
            push_decimal(&mut msg, byte_offset(&self.chars, q));
            proof {
                assert(msg@ =~= "unexpected byte "@ + decimal_text(lead_byte(c)) + " at "@
                    + decimal_text(offset(cs, q as int)));
            }
            Err(Error::Json(msg))
        }
    }

    /// An array at depth `depth`; the current character is its `[`.
    fn array(&mut self, depth: usize) -> (r: Result<Value, Error>)
        requires
            old(self).pos < old(self).chars@.len(),
            old(self).chars@[old(self).pos as int] == '[',
            depth < MAX_DEPTH,
        ensures
            final(self).chars@ == old(self).chars@,
            final(self).pos <= final(self).chars@.len(),
            match r {
                Ok(v) => array_spec(old(self).chars@, old(self).pos + 1, depth as int) == Ok::<
                    (JsonView, int),
                    Seq<char>,
                >((view_value(v), final(self).pos as int)) && final(self).pos > old(self).pos,
                Err(e) => array_spec(old(self).chars@, old(self).pos + 1, depth as int) matches Err(
                    m,
                ) && json_with(e, m),
            },
        decreases MAX_DEPTH - depth, 2int, 0int,
    {
        let ghost cs = self.chars@;
        let ghost p0 = self.pos as int;
        let len = self.chars.len();
        self.pos = self.pos + 1;
        let mut out: Vec<Value> = Vec::new();
        self.ws();
        proof {
            lemma_skip_ws_bounds(cs, p0 + 1);
            lemma_array_unfold(cs, p0 + 1, depth as int);
        }
        if self.pos < len && self.chars[self.pos] == ']' {
            self.pos = self.pos + 1;
            return Ok(Value::Array(out));
        }
        assert(view_items(out@) =~= Seq::<JsonView>::empty());
        loop
            invariant
                self.chars@ == cs,
                cs == old(self).chars@,
                p0 == old(self).pos,
                len == cs.len(),
                p0 < self.pos <= len,
                depth < MAX_DEPTH,
                array_spec(cs, p0 + 1, depth as int) == elements_spec(
                    cs,
                    self.pos as int,
                    depth as int,
                    view_items(out@),
                ),
            decreases len - self.pos,
        {
            let ghost p = self.pos as int;
            proof {
                lemma_elements_unfold(cs, p, depth as int, view_items(out@));
            }
            let v = self.value(depth + 1)?;
            let ghost p2 = self.pos as int;
            proof {
                lemma_view_items_push(out@, v);
            }
            out.push(v);
            self.ws();
            proof {
                lemma_skip_ws_bounds(cs, p2);
            }
            let p3 = self.pos;
            if p3 < len && self.chars[p3] == ',' {
                self.pos = p3 + 1;
            } else if p3 < len && self.chars[p3] == ']' {
                self.pos = p3 + 1;
                return Ok(Value::Array(out));
            } else {
                return Err(json_error_at("expected ',' or ']' at byte ", &self.chars, p3));
            }
        }
    }

    /// An object at depth `depth`; the current character is its `{`.
    fn object(&mut self, depth: usize) -> (r: Result<Value, Error>)
        requires
            old(self).pos < old(self).chars@.len(),
            old(self).chars@[old(self).pos as int] == '{',
            depth < MAX_DEPTH,
        ensures
            final(self).chars@ == old(self).chars@,
            final(self).pos <= final(self).chars@.len(),
            match r {
                Ok(v) => object_spec(old(self).chars@, old(self).pos + 1, depth as int) == Ok::<
                    (JsonView, int),
                    Seq<char>,
                >((view_value(v), final(self).pos as int)) && final(self).pos > old(self).pos,
                Err(e) => object_spec(old(self).chars@, old(self).pos + 1, depth as int) matches Err(
                    m,
                ) && json_with(e, m),
            },
        decreases MAX_DEPTH - depth, 2int, 0int,
    {
        let ghost cs = self.chars@;
        let ghost p0 = self.pos as int;
        let len = self.chars.len();
        self.pos = self.pos + 1;
        let mut entries: Vec<(String, Value)> = Vec::new();
        self.ws();
        proof {
            lemma_skip_ws_bounds(cs, p0 + 1);
            lemma_object_unfold(cs, p0 + 1, depth as int);
        }
        if self.pos < len && self.chars[self.pos] == '}' {
            self.pos = self.pos + 1;
            return Ok(Value::Object(Object { entries }));
        }
        assert(view_entries(entries@) =~= Seq::<(Seq<char>, JsonView)>::empty());
        loop
            invariant
                self.chars@ == cs,
                cs == old(self).chars@,
                p0 == old(self).pos,
                len == cs.len(),
                p0 < self.pos <= len,
                depth < MAX_DEPTH,
                object_spec(cs, p0 + 1, depth as int) == members_spec(
                    cs,
                    self.pos as int,
                    depth as int,
                    view_entries(entries@),
                ),
            decreases len - self.pos,
        {
            let ghost p = self.pos as int;
            self.ws();
            proof {
                lemma_skip_ws_bounds(cs, p);
                lemma_members_unfold(cs, p, depth as int, view_entries(entries@));
            }
            let q = self.pos;
            if !(q < len && self.chars[q] == '"') {
                return Err(json_error_at("expected object key at byte ", &self.chars, q));
            }
            let key = self.string()?;
            let ghost q2 = self.pos as int;
            self.ws();
            proof {
                lemma_skip_ws_bounds(cs, q2);
            }
            let q3 = self.pos;
            if !(q3 < len && self.chars[q3] == ':') {
                return Err(json_error_at("expected ':' at byte ", &self.chars, q3));
            }
            self.pos = q3 + 1;
            let v = self.value(depth + 1)?;
            let ghost q4 = self.pos as int;
            if contains_key_in(&entries, &key) {
                return Err(json_error("duplicate object key"));
            }
            proof {
                lemma_view_entries_push(entries@, (key, v));
            }
            entries.push((key, v));
            self.ws();
            proof {
                lemma_skip_ws_bounds(cs, q4);
            }
            let q5 = self.pos;
            if q5 < len && self.chars[q5] == ',' {
                self.pos = q5 + 1;
            } else if q5 < len && self.chars[q5] == '}' {
                self.pos = q5 + 1;
                return Ok(Value::Object(Object { entries }));
            } else {
                return Err(json_error_at("expected ',' or '}' at byte ", &self.chars, q5));
            }
        }
    }

    fn skip_digits(&mut self)
        requires
            old(self).pos <= old(self).chars@.len(),
        ensures
            final(self).chars@ == old(self).chars@,
            final(self).pos == digits_end(old(self).chars@, old(self).pos as int),
            old(self).pos <= final(self).pos <= final(self).chars@.len(),
    {
        let ghost cs = self.chars@;
        let ghost p0 = self.pos as int;
        while self.pos < self.chars.len() && '0' <= self.chars[self.pos] && self.chars[self.pos]
            <= '9'
            invariant
                self.chars@ == cs,
                p0 <= self.pos <= cs.len(),
                digits_end(cs, p0) == digits_end(cs, self.pos as int),
            decreases cs.len() - self.pos,
        {
            self.pos = self.pos + 1;
        }
    }
}

/// How a text reads as a JSON number: `None` when it is none, otherwise
/// whether it denotes a finite binary64.  `Some(true)` comes exactly for the
/// texts that `parse` reads as a document holding just that number.
pub fn number_text_class(text: &str) -> (r: Option<bool>)
    ensures
        match r {
            None => !json_number_text(text@),
            Some(f) => json_number_text(text@) && f == number_finite(text@),
        },
        (r == Some(true)) <==> document_spec(text@) == Ok::<JsonView, Seq<char>>(
            JsonView::Number(text@),
        ),
{
    proof {
        crate::json_laws::law_number_documents(text@);
    }
    let chars = crate::text::chars_of(text);
    let len = chars.len();
    let mut p = Parser { chars, pos: 0 };
    assert(p.chars@ =~= text@);
    assert(p.pos == 0);
    let scanned = p.scan_number();
    assert(match number_end(text@, 0) {
        Some(e) => scanned == Some(e as usize) && 0 <= e <= text@.len(),
        None => scanned is None,
    });
    match scanned {
        None => {
            assert(number_end(text@, 0) is None);
            None
        },
        Some(end) => {
            if end != len {
                assert(number_end(text@, 0) == Some(end as int));
                return None;
            }
            assert(p.chars@.subrange(0, end as int) =~= text@);
            Some(number_is_finite(&p.chars, 0, end))
        },
    }
}

/// Parses one JSON document.  Containers nest at most `MAX_DEPTH` deep,
/// object keys are distinct, and every number must be finite as a binary64.
pub fn parse(input: &str) -> (r: Result<Value, Error>)
    ensures
        match r {
            Ok(v) => document_spec(input@) == Ok::<JsonView, Seq<char>>(view_value(v)),
            Err(e) => document_spec(input@) matches Err(m) && json_with(e, m),
        },
        r matches Ok(v) ==> keys_distinct(view_value(v)) && numbers_finite(view_value(v)),
{
    proof {
        law_parsed_keys_are_distinct(input@);
        law_parsed_numbers_are_finite(input@);
    }
    let chars = crate::text::chars_of(input);
    let mut p = Parser { chars, pos: 0 };
    let value = p.value(0)?;
    let ghost p1 = p.pos as int;
    p.ws();
    if p.pos != p.chars.len() {
        return Err(json_error_at("unexpected trailing JSON at byte ", &p.chars, p.pos));
    }
    Ok(value)
}

} // verus!
