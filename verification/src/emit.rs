use vstd::prelude::*;
use crate::text::{chars_of, decimal_text, lemma_utf8_len_concat, push_char, push_decimal, utf8_len};
use crate::json::{
    document_spec, hex4_spec, hex_value, skip_ws, string_body, value_spec, JsonView,
};

verus! {

/// Lower-case hexadecimal digit for `d < 16`.
pub open spec fn hex_lower(d: nat) -> char {
    if d < 10 {
        (('0' as u32) + d) as char
    } else {
        (('a' as u32) + (d - 10)) as char
    }
}

/// How one character is written inside a JSON string literal.
pub open spec fn escape_char(c: char) -> Seq<char> {
    if c == '"' {
        seq!['\\', '"']
    } else if c == '\\' {
        seq!['\\', '\\']
    } else if c == '\n' {
        seq!['\\', 'n']
    } else if c == '\r' {
        seq!['\\', 'r']
    } else if c == '\t' {
        seq!['\\', 't']
    } else if c == '\u{08}' {
        seq!['\\', 'b']
    } else if c == '\u{0c}' {
        seq!['\\', 'f']
    } else if (c as u32) < 0x20 {
        seq![
            '\\',
            'u',
            '0',
            '0',
            hex_lower((c as u32 as nat) / 16),
            hex_lower((c as u32 as nat) % 16),
        ]
    } else {
        seq![c]
    }
}

/// The escaped body of a JSON string literal.
pub open spec fn escaped(s: Seq<char>) -> Seq<char>
    decreases s.len(),
{
    if s.len() == 0 {
        Seq::empty()
    } else {
        escaped(s.drop_last()) + escape_char(s.last())
    }
}

/// A complete JSON string literal for `s`.
pub open spec fn quoted(s: Seq<char>) -> Seq<char> {
    seq!['"'] + escaped(s) + seq!['"']
}

fn hex_char(d: u32) -> (c: char)
    requires
        d < 16,
    ensures
        c == hex_lower(d as nat),
{
    match d {
        0 => '0',
        1 => '1',
        2 => '2',
        3 => '3',
        4 => '4',
        5 => '5',
        6 => '6',
        7 => '7',
        8 => '8',
        9 => '9',
        10 => 'a',
        11 => 'b',
        12 => 'c',
        13 => 'd',
        14 => 'e',
        _ => 'f',
    }
}

fn push_pair(out: &mut String, a: char, b: char)
    ensures
        final(out)@ == old(out)@ + seq![a, b],
{
    push_char(out, a);
    push_char(out, b);
    assert(final(out)@ =~= old(out)@ + seq![a, b]);
}

/// Appends the escaped form of one character.
fn push_escaped(out: &mut String, c: char)
    ensures
        final(out)@ == old(out)@ + escape_char(c),
{
    if c == '"' {
        push_pair(out, '\\', '"');
    } else if c == '\\' {
        push_pair(out, '\\', '\\');
    } else if c == '\n' {
        push_pair(out, '\\', 'n');
    } else if c == '\r' {
        push_pair(out, '\\', 'r');
    } else if c == '\t' {
        push_pair(out, '\\', 't');
    } else if c == '\u{08}' {
        push_pair(out, '\\', 'b');
    } else if c == '\u{0c}' {
        push_pair(out, '\\', 'f');
    } else if (c as u32) < 0x20 {
        let u = c as u32;
        push_pair(out, '\\', 'u');
        push_pair(out, '0', '0');
        push_pair(out, hex_char(u / 16), hex_char(u % 16));
        assert(final(out)@ =~= old(out)@ + escape_char(c));
    } else {
        push_char(out, c);
        assert(final(out)@ =~= old(out)@ + escape_char(c));
    }
}

/// Appends `text` as a JSON string literal.
pub fn quote(out: &mut String, text: &str)
    ensures
        final(out)@ == old(out)@ + quoted(text@),
{
    let cs = chars_of(text);
    let ghost start = out@;
    push_char(out, '"');
    let mut i: usize = 0;
    assert(cs@.take(0) =~= Seq::<char>::empty());
    while i < cs.len()
        invariant
            i <= cs@.len(),
            cs@ == text@,
            out@ == start + seq!['"'] + escaped(cs@.take(i as int)),
        decreases cs@.len() - i,
    {
        push_escaped(out, cs[i]);
        assert(cs@.take(i as int + 1).drop_last() =~= cs@.take(i as int));
        i = i + 1;
        assert(out@ =~= start + seq!['"'] + escaped(cs@.take(i as int)));
    }
    assert(cs@.take(cs@.len() as int) =~= cs@);
    push_char(out, '"');
    assert(final(out)@ =~= old(out)@ + quoted(text@));
}

/// `[a,b,...]`: comma-separated decimal texts between brackets.
pub open spec fn joined_decimals(values: Seq<usize>) -> Seq<char>
    decreases values.len(),
{
    if values.len() == 0 {
        Seq::empty()
    } else if values.len() == 1 {
        decimal_text(values[0] as nat)
    } else {
        joined_decimals(values.drop_last()) + seq![','] + decimal_text(values.last() as nat)
    }
}

/// Appends a JSON array of unsigned integers.
pub fn write_usize_vec(out: &mut String, values: &[usize])
    ensures
        final(out)@ == old(out)@ + seq!['['] + joined_decimals(values@) + seq![']'],
{
    let ghost start = out@;
    push_char(out, '[');
    let mut i: usize = 0;
    while i < values.len()
        invariant
            i <= values@.len(),
            out@ == start + seq!['['] + joined_decimals(values@.take(i as int)),
        decreases values@.len() - i,
    {
        let ghost before = out@;
        if i > 0 {
            push_char(out, ',');
        }
        push_decimal(out, values[i] as u128);
        proof {
            let p = values@.take(i as int + 1);
            assert(p.drop_last() =~= values@.take(i as int));
            if i == 0 {
                assert(values@.take(0) =~= Seq::<usize>::empty());
                assert(out@ =~= start + seq!['['] + joined_decimals(p));
            } else {
                assert(out@ =~= start + seq!['['] + joined_decimals(p));
            }
        }
        i = i + 1;
    }
    assert(values@.take(values@.len() as int) =~= values@);
    push_char(out, ']');
    assert(final(out)@ =~= old(out)@ + seq!['['] + joined_decimals(values@) + seq![']']);
}

pub proof fn lemma_escaped_concat(a: Seq<char>, b: Seq<char>)
    ensures
        escaped(a + b) == escaped(a) + escaped(b),
    decreases b.len(),
{
    if b.len() == 0 {
        assert(a + b =~= a);
        assert(escaped(a) + escaped(b) =~= escaped(a));
    } else {
        lemma_escaped_concat(a, b.drop_last());
        assert((a + b).drop_last() =~= a + b.drop_last());
        assert(escaped(a) + escaped(b) =~= escaped(a) + escaped(b.drop_last()) + escape_char(
            b.last(),
        ));
    }
}

proof fn lemma_hex_lower(d: nat)
    requires
        d < 16,
    ensures
        hex_value(hex_lower(d)) == Some(d),
{
}

/// Four ASCII characters take four UTF-8 bytes.
proof fn lemma_ascii4_len(t: Seq<char>)
    requires
        t.len() == 4,
        forall|i: int| 0 <= i < 4 ==> (#[trigger] t[i] as u32) < 0x80,
    ensures
        utf8_len(t) == 4,
{
    reveal_with_fuel(utf8_len, 5);
    assert(t.drop_last().drop_last().drop_last().drop_last() =~= Seq::<char>::empty());
    assert((t[3] as u32) < 0x80);
    assert((t[2] as u32) < 0x80);
    assert((t[1] as u32) < 0x80);
    assert((t[0] as u32) < 0x80);
}

/// Reading the escape of one character yields that character.
proof fn lemma_escape_step(cs: Seq<char>, p: int, c: char, acc: Seq<char>)
    requires
        0 <= p,
        p + escape_char(c).len() <= cs.len(),
        cs.subrange(p, p + escape_char(c).len()) == escape_char(c),
    ensures
        string_body(cs, p, acc) == string_body(cs, p + escape_char(c).len(), acc.push(c)),
{
    let e = escape_char(c);
    assert(cs[p] == e[0]);
    reveal(string_body);
    if e.len() == 2 {
        assert(cs[p + 1] == e[1]);
    } else if e.len() == 6 {
        assert(cs[p + 1] == e[1]);
        let u = c as u32 as nat;
        let h1 = u / 16;
        let h0 = u % 16;
        lemma_hex_lower(0);
        lemma_hex_lower(h1);
        lemma_hex_lower(h0);
        assert(cs[p + 2] == '0' && cs[p + 3] == '0');
        assert(cs[p + 4] == hex_lower(h1) && cs[p + 5] == hex_lower(h0));
        let t = cs.subrange(p + 2, p + 6);
        assert(cs =~= cs.take(p + 2) + t + cs.skip(p + 6));
        lemma_utf8_len_concat(cs.take(p + 2) + t, cs.skip(p + 6));
        lemma_utf8_len_concat(cs.take(p + 2), t);
        assert forall|i: int| 0 <= i < 4 implies (#[trigger] t[i] as u32) < 0x80 by {
            assert(t[i] == cs[p + 2 + i]);
        }
        lemma_ascii4_len(t);
        reveal(hex4_spec);
        assert(hex4_spec(cs, p + 2) == Ok::<nat, Seq<char>>(u));
        assert(u as char == c);
    } else {
        assert(e.len() == 1);
    }
}

/// Reading an escaped body up to its closing quote yields the text.
proof fn lemma_escaped_body(cs: Seq<char>, p: int, s: Seq<char>, acc: Seq<char>)
    requires
        0 <= p,
        p + escaped(s).len() < cs.len(),
        cs.subrange(p, p + escaped(s).len()) == escaped(s),
        cs[p + escaped(s).len()] == '"',
    ensures
        string_body(cs, p, acc) == Ok::<(Seq<char>, int), Seq<char>>(
            (acc + s, p + escaped(s).len() + 1),
        ),
    decreases s.len(),
{
    if s.len() == 0 {
        reveal(string_body);
        assert(acc + s =~= acc);
    } else {
        let c = s[0];
        let rest = s.drop_first();
        assert(s =~= seq![c] + rest);
        lemma_escaped_concat(seq![c], rest);
        assert(seq![c].drop_last() =~= Seq::<char>::empty());
        assert(escaped(Seq::<char>::empty()) =~= Seq::<char>::empty());
        assert(seq![c].last() == c);
        assert(escaped(seq![c]) == escaped(seq![c].drop_last()) + escape_char(seq![c].last()));
        assert(escaped(seq![c]) =~= escape_char(c));
        let e = escape_char(c);
        let q = p + e.len();
        assert(cs.subrange(p, q) =~= e) by {
            assert(cs.subrange(p, q) =~= cs.subrange(p, p + escaped(s).len()).subrange(0, e.len() as int));
        }
        lemma_escape_step(cs, p, c, acc);
        assert(cs.subrange(q, q + escaped(rest).len()) =~= escaped(rest)) by {
            assert(cs.subrange(q, q + escaped(rest).len()) =~= cs.subrange(
                p,
                p + escaped(s).len(),
            ).subrange(e.len() as int, escaped(s).len() as int));
        }
        lemma_escaped_body(cs, q, rest, acc.push(c));
        assert(acc.push(c) + rest =~= acc + s);
    }
}

/// What `quote` writes, `parse` reads back as the same string.
pub proof fn law_quote_round_trip(s: Seq<char>)
    ensures
        document_spec(quoted(s)) == Ok::<JsonView, Seq<char>>(JsonView::Str(s)),
{
    let cs = quoted(s);
    let n = escaped(s).len() as int;
    assert(cs.subrange(1, 1 + n) =~= escaped(s));
    assert(cs[1 + n] == '"');
    lemma_escaped_body(cs, 1, s, Seq::empty());
    assert(Seq::<char>::empty() + s =~= s);
    assert(skip_ws(cs, 0) == 0);
    assert(skip_ws(cs, cs.len() as int) == cs.len());
    assert(value_spec(cs, 0, 0) == Ok::<(JsonView, int), Seq<char>>(
        (JsonView::Str(s), cs.len() as int),
    ));
}

} // verus!
