//! Deterministic JSON rendering of schema records.
//!
//! A record is rendered as an object with a `class_name` string member and
//! a `properties` object member; a batch is rendered as an array of such
//! objects.  Property keys are emitted in the stored order, which the
//! record keeps strictly ascending, so the output is alphabetized and
//! diff-stable.  String content is escaped as JSON requires: quote,
//! backslash, and the control characters, the latter with their short
//! escapes where JSON names one and as a lowercase `\u00..` escape
//! otherwise.

use vstd::prelude::*;
use vstd::string::StringExecFns;
use crate::record::SchemaRecord;

verus! {

/// Relies on alloc's String::push: appends the given character to the end
/// of the string.
pub assume_specification[ String::push ](s: &mut String, ch: char)
    ensures
        final(s)@ == old(s)@.push(ch),
;

/// The lowercase hexadecimal digit for a value below sixteen.
pub open spec fn hex_digit(n: int) -> char {
    if n == 0 {
        '0'
    } else if n == 1 {
        '1'
    } else if n == 2 {
        '2'
    } else if n == 3 {
        '3'
    } else if n == 4 {
        '4'
    } else if n == 5 {
        '5'
    } else if n == 6 {
        '6'
    } else if n == 7 {
        '7'
    } else if n == 8 {
        '8'
    } else if n == 9 {
        '9'
    } else if n == 10 {
        'a'
    } else if n == 11 {
        'b'
    } else if n == 12 {
        'c'
    } else if n == 13 {
        'd'
    } else if n == 14 {
        'e'
    } else {
        'f'
    }
}

/// The JSON escape of one character.
pub open spec fn esc_char(c: char) -> Seq<char> {
    if c == '"' {
        seq!['\\', '"']
    } else if c == '\\' {
        seq!['\\', '\\']
    } else if c == '\u{8}' {
        seq!['\\', 'b']
    } else if c == '\t' {
        seq!['\\', 't']
    } else if c == '\n' {
        seq!['\\', 'n']
    } else if c == '\u{c}' {
        seq!['\\', 'f']
    } else if c == '\r' {
        seq!['\\', 'r']
    } else if (c as u32) < 32 {
        seq!['\\', 'u', '0', '0', hex_digit((c as u32) as int / 16), hex_digit((c as u32) as int % 16)]
    } else {
        seq![c]
    }
}

/// The JSON escape of a character sequence, from index `i` on.
pub open spec fn esc_from(s: Seq<char>, i: int) -> Seq<char>
    decreases s.len() - i,
{
    if i < 0 || i >= s.len() {
        Seq::empty()
    } else {
        esc_char(s[i]) + esc_from(s, i + 1)
    }
}

/// The JSON string literal for a character sequence: quoted and escaped.
pub open spec fn json_string(s: Seq<char>) -> Seq<char> {
    seq!['"'] + esc_from(s, 0) + seq!['"']
}

/// The members of a JSON object holding the given key-value pairs, in the
/// given order, separated by commas.
pub open spec fn json_pairs(ps: Seq<(Seq<char>, Seq<char>)>) -> Seq<char>
    decreases ps.len(),
{
    if ps.len() == 0 {
        Seq::empty()
    } else {
        let item = json_string(ps.last().0) + seq![':'] + json_string(ps.last().1);
        if ps.len() == 1 {
            item
        } else {
            json_pairs(ps.drop_last()) + seq![','] + item
        }
    }
}

/// The JSON object for one schema record.
pub open spec fn json_record(cn: Seq<char>, ps: Seq<(Seq<char>, Seq<char>)>) -> Seq<char> {
    "{\"class_name\":"@ + json_string(cn) + ",\"properties\":{"@ + json_pairs(ps) + "}}"@
}

/// The elements of a JSON array holding the given records, in order,
/// separated by commas.
pub open spec fn json_items(rs: Seq<(Seq<char>, Seq<(Seq<char>, Seq<char>)>)>) -> Seq<char>
    decreases rs.len(),
{
    if rs.len() == 0 {
        Seq::empty()
    } else {
        let item = json_record(rs.last().0, rs.last().1);
        if rs.len() == 1 {
            item
        } else {
            json_items(rs.drop_last()) + seq![','] + item
        }
    }
}

/// The JSON array for a batch of schema records.
pub open spec fn json_array(rs: Seq<(Seq<char>, Seq<(Seq<char>, Seq<char>)>)>) -> Seq<char> {
    seq!['['] + json_items(rs) + seq![']']
}

/// The lowercase hexadecimal digit character for a value below sixteen.
fn hex_digit_exec(n: u32) -> (r: char)
    requires
        n < 16,
    ensures
        r == hex_digit(n as int),
{
    if n == 0 {
        '0'
    } else if n == 1 {
        '1'
    } else if n == 2 {
        '2'
    } else if n == 3 {
        '3'
    } else if n == 4 {
        '4'
    } else if n == 5 {
        '5'
    } else if n == 6 {
        '6'
    } else if n == 7 {
        '7'
    } else if n == 8 {
        '8'
    } else if n == 9 {
        '9'
    } else if n == 10 {
        'a'
    } else if n == 11 {
        'b'
    } else if n == 12 {
        'c'
    } else if n == 13 {
        'd'
    } else if n == 14 {
        'e'
    } else {
        'f'
    }
}

/// Appends the JSON escape of one character.
fn push_escaped(out: &mut String, c: char)
    ensures
        final(out)@ == old(out)@ + esc_char(c),
{
    if c == '"' {
        out.push('\\');
        out.push('"');
    } else if c == '\\' {
        out.push('\\');
        out.push('\\');
    } else if c == '\u{8}' {
        out.push('\\');
        out.push('b');
    } else if c == '\t' {
        out.push('\\');
        out.push('t');
    } else if c == '\n' {
        out.push('\\');
        out.push('n');
    } else if c == '\u{c}' {
        out.push('\\');
        out.push('f');
    } else if c == '\r' {
        out.push('\\');
        out.push('r');
    } else if (c as u32) < 32 {
        let u = c as u32;
        out.push('\\');
        out.push('u');
        out.push('0');
        out.push('0');
        out.push(hex_digit_exec(u / 16));
        out.push(hex_digit_exec(u % 16));
    } else {
        out.push(c);
    }
    proof {
        assert(out@ =~= old(out)@ + esc_char(c));
    }
}

/// Appends the JSON string literal for the given characters.
fn push_json_string(out: &mut String, s: &Vec<char>)
    ensures
        final(out)@ == old(out)@ + json_string(s@),
{
    out.push('"');
    let n = s.len();
    let mut i: usize = 0;
    while i < n
        invariant
            n == s@.len(),
            i <= n,
            out@ + esc_from(s@, i as int) == old(out)@ + seq!['"'] + esc_from(s@, 0),
        decreases n - i,
    {
        push_escaped(out, s[i]);
        i = i + 1;
    }
    out.push('"');
    proof {
        assert(out@ =~= old(out)@ + json_string(s@));
    }
}

/// Appends the JSON object for one schema record.
pub(crate) fn push_record(out: &mut String, rec: &SchemaRecord)
    ensures
        final(out)@ == old(out)@ + json_record(rec.class(), rec.pairs()),
{
    out.append("{\"class_name\":");
    push_json_string(out, &rec.class_name);
    out.append(",\"properties\":{");
    let ghost base = out@;
    let n = rec.props.len();
    let mut i: usize = 0;
    while i < n
        invariant
            n == rec.props@.len(),
            i <= n,
            rec.pairs().len() == n,
            out@ == base + json_pairs(rec.pairs().take(i as int)),
        decreases n - i,
    {
        if i > 0 {
            out.push(',');
        }
        push_json_string(out, &rec.props[i].0);
        out.push(':');
        push_json_string(out, &rec.props[i].1);
        proof {
            let ps = rec.pairs();
            assert(ps.take(i + 1).drop_last() =~= ps.take(i as int));
            assert(ps.take(i + 1).last() == ps[i as int]);
            assert(ps[i as int].0 == rec.props@[i as int].0@);
            assert(ps[i as int].1 == rec.props@[i as int].1@);
            assert(out@ =~= base + json_pairs(ps.take(i + 1)));
        }
        i = i + 1;
    }
    proof {
        assert(rec.pairs().take(n as int) =~= rec.pairs());
    }
    out.append("}}");
    proof {
        assert(out@ =~= old(out)@ + json_record(rec.class(), rec.pairs()));
    }
}

/// Renders one schema record as JSON text.
pub(crate) fn record_json(rec: &SchemaRecord) -> (r: String)
    ensures
        r@ == json_record(rec.class(), rec.pairs()),
{
    let mut out = String::new();
    push_record(&mut out, rec);
    proof {
        assert(out@ =~= json_record(rec.class(), rec.pairs()));
    }
    out
}

} // verus!
