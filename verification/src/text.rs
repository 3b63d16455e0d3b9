//! Characters, lexicographic order on character sequences, and line
//! splitting.

use vstd::prelude::*;
use vstd::string::StrSliceExecFns;

verus! {

broadcast use vstd::string::group_string_axioms;

/// A word character: an ASCII letter, an ASCII digit, or an underscore.
pub open spec fn is_word_char(c: char) -> bool {
    ('a' <= c && c <= 'z') || ('A' <= c && c <= 'Z') || ('0' <= c && c <= '9') || c == '_'
}

/// Executable word-character test.
pub fn is_word(c: char) -> (r: bool)
    ensures
        r == is_word_char(c),
{
    ('a' <= c && c <= 'z') || ('A' <= c && c <= 'Z') || ('0' <= c && c <= '9') || c == '_'
}

/// Strict lexicographic order on character sequences, compared from index
/// `i` on; a proper prefix precedes its extensions.
pub open spec fn lex_lt_from(a: Seq<char>, b: Seq<char>, i: int) -> bool
    decreases b.len() - i,
{
    if i < 0 || i >= b.len() {
        false
    } else if i >= a.len() {
        true
    } else if a[i] != b[i] {
        a[i] < b[i]
    } else {
        lex_lt_from(a, b, i + 1)
    }
}

/// Strict lexicographic order on character sequences.
pub open spec fn lex_lt(a: Seq<char>, b: Seq<char>) -> bool {
    lex_lt_from(a, b, 0)
}

/// Executable lexicographic comparison of two character vectors.
pub fn lex_less(a: &Vec<char>, b: &Vec<char>) -> (r: bool)
    ensures
        r == lex_lt(a@, b@),
{
    let mut i: usize = 0;
    loop
        invariant
            i <= a.len(),
            i <= b.len(),
            lex_lt(a@, b@) == lex_lt_from(a@, b@, i as int),
        decreases b.len() - i,
    {
        if i >= b.len() {
            return false;
        }
        if i >= a.len() {
            return true;
        }
        if a[i] != b[i] {
            return a[i] < b[i];
        }
        i = i + 1;
    }
}

/// Drops one trailing carriage return, if present: the tail of a line that
/// was terminated by a carriage return followed by a line feed.
pub open spec fn strip_cr(line: Seq<char>) -> Seq<char> {
    if line.len() > 0 && line[line.len() - 1] == '\r' {
        line.drop_last()
    } else {
        line
    }
}

/// The lines of `s` from index `i` on, where `cur` holds the characters of
/// the current line read so far.  A line is terminated by a line feed or by
/// a carriage return followed by a line feed; a final line terminator yields
/// no additional empty line.
pub open spec fn lines_from(s: Seq<char>, i: int, cur: Seq<char>) -> Seq<Seq<char>>
    decreases s.len() - i,
{
    if i < 0 || i >= s.len() {
        if s.len() > 0 && s[s.len() - 1] != '\n' {
            seq![cur]
        } else {
            Seq::empty()
        }
    } else if s[i] == '\n' {
        seq![strip_cr(cur)] + lines_from(s, i + 1, Seq::empty())
    } else {
        lines_from(s, i + 1, cur.push(s[i]))
    }
}

/// The line sequence of a document: split at line feeds, with a carriage
/// return before a line feed removed, and no empty line after a final
/// terminator.
pub open spec fn spec_lines(s: Seq<char>) -> Seq<Seq<char>> {
    lines_from(s, 0, Seq::empty())
}

/// Collects the characters of a string slice into a vector.
pub fn to_chars(s: &str) -> (r: Vec<char>)
    ensures
        r@ == s@,
{
    let mut r: Vec<char> = Vec::new();
    let n = s.unicode_len();
    let mut i: usize = 0;
    while i < n
        invariant
            n == s@.len(),
            i <= n,
            r@ == s@.take(i as int),
        decreases n - i,
    {
        r.push(s.get_char(i));
        proof {
            assert(r@ =~= s@.take(i + 1));
        }
        i = i + 1;
    }
    proof {
        assert(r@ =~= s@);
    }
    r
}

/// Splits a document into its lines.
pub fn split_lines(s: &str) -> (r: Vec<Vec<char>>)
    ensures
        r.deep_view() == spec_lines(s@),
{
    let chars = to_chars(s);
    let n = chars.len();
    let mut out: Vec<Vec<char>> = Vec::new();
    let mut cur: Vec<char> = Vec::new();
    let mut i: usize = 0;
    while i < n
        invariant
            n == chars.len(),
            chars@ == s@,
            i <= n,
            spec_lines(s@) == out.deep_view() + lines_from(s@, i as int, cur@),
        decreases n - i,
    {
        let c = chars[i];
        if c == '\n' {
            let ghost cur0 = cur@;
            let ghost out0 = out.deep_view();
            let stripped = if cur.len() > 0 && cur[cur.len() - 1] == '\r' {
                let mut t = cur;
                t.pop();
                t
            } else {
                cur
            };
            proof {
                assert(stripped@ == strip_cr(cur0));
            }
            out.push(stripped);
            cur = Vec::new();
            proof {
                assert(out.deep_view() =~~= out0 + seq![strip_cr(cur0)]);
                assert(out.deep_view() + lines_from(s@, i + 1, cur@) =~~= out0 + lines_from(
                    s@,
                    i as int,
                    cur0,
                ));
            }
        } else {
            cur.push(c);
        }
        i = i + 1;
    }
    if n > 0 && chars[n - 1] != '\n' {
        out.push(cur);
    }
    proof {
        assert(out.deep_view() =~~= spec_lines(s@));
    }
    out
}

} // verus!
