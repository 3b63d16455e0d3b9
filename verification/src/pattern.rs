//! The two textual shapes the extractor recognizes: a class declaration
//! line and a property declaration line.
//!
//! A class declaration is the keyword `class`, a single space, and an
//! identifier; the leftmost such occurrence on the line wins, and it need
//! not stand at the start of the line.
//!
//! A property declaration is an identifier, a colon and a space, a type
//! expression, and a terminating semicolon.  The identifier is the earliest
//! full word run on the line whose end is followed by `: `, and the type
//! expression extends greedily to the last semicolon on the line, so a line
//! with several semicolons captures everything up to the final one.

use vstd::prelude::*;
use crate::text::{is_word, is_word_char};

verus! {

/// The end of the word-character run that starts at index `j`: the first
/// index at or after `j` holding no word character.
pub open spec fn word_end(line: Seq<char>, j: int) -> int
    decreases line.len() - j,
{
    if 0 <= j < line.len() && is_word_char(line[j]) {
        word_end(line, j + 1)
    } else {
        j
    }
}

/// A class declaration match begins at index `i`: the literal `class`, one
/// space, and at least one word character.
pub open spec fn class_match_at(line: Seq<char>, i: int) -> bool {
    &&& 0 <= i
    &&& i + 6 < line.len()
    &&& line[i] == 'c'
    &&& line[i + 1] == 'l'
    &&& line[i + 2] == 'a'
    &&& line[i + 3] == 's'
    &&& line[i + 4] == 's'
    &&& line[i + 5] == ' '
    &&& is_word_char(line[i + 6])
}

/// The first index at or after `i` where a class declaration match begins.
pub open spec fn find_class_at(line: Seq<char>, i: int) -> Option<int>
    decreases line.len() - i,
{
    if i < 0 || i >= line.len() {
        None
    } else if class_match_at(line, i) {
        Some(i)
    } else {
        find_class_at(line, i + 1)
    }
}

/// The class name captured from a line, if the line holds a class
/// declaration: the word run after the leftmost `class ` that a word
/// character follows.
pub open spec fn class_match(line: Seq<char>) -> Option<Seq<char>> {
    match find_class_at(line, 0) {
        None => None,
        Some(i) => Some(line.subrange(i + 6, word_end(line, i + 6))),
    }
}

pub proof fn lemma_find_class_none(line: Seq<char>, i: int)
    requires
        forall|k: int| i <= k < line.len() ==> !class_match_at(line, k),
    ensures
        find_class_at(line, i) is None,
    decreases line.len() - i,
{
    if 0 <= i && i < line.len() {
        lemma_find_class_none(line, i + 1);
    }
}

pub proof fn lemma_find_class_found(line: Seq<char>, i: int, j: int)
    requires
        0 <= i <= j < line.len(),
        class_match_at(line, j),
        forall|k: int| i <= k < j ==> !class_match_at(line, k),
    ensures
        find_class_at(line, i) == Some(j),
    decreases j - i,
{
    if i < j {
        lemma_find_class_found(line, i + 1, j);
    }
}

/// The index of the last semicolon strictly before index `i`.
pub open spec fn last_semi_before(line: Seq<char>, i: int) -> Option<int>
    decreases i,
{
    if i <= 0 || i > line.len() {
        None
    } else if line[i - 1] == ';' {
        Some(i - 1)
    } else {
        last_semi_before(line, i - 1)
    }
}

/// The index of the last semicolon on the line.
pub open spec fn last_semi(line: Seq<char>) -> Option<int> {
    last_semi_before(line, line.len() as int)
}

pub proof fn lemma_last_semi_bounds(line: Seq<char>, i: int)
    requires
        last_semi_before(line, i) is Some,
    ensures
        0 <= last_semi_before(line, i).unwrap() < line.len(),
    decreases i,
{
    if !(i <= 0 || i > line.len()) && line[i - 1] != ';' {
        lemma_last_semi_bounds(line, i - 1);
    }
}

/// A property declaration match begins at index `j`: a word run whose end
/// is followed by `: `, with a semicolon somewhere after that pair.
pub open spec fn prop_match_at(line: Seq<char>, j: int) -> bool {
    &&& 0 <= j < line.len()
    &&& is_word_char(line[j])
    &&& {
        let e = word_end(line, j);
        &&& e + 1 < line.len()
        &&& line[e] == ':'
        &&& line[e + 1] == ' '
        &&& match last_semi(line) {
            Some(z) => z >= e + 2,
            None => false,
        }
    }
}

/// The first index at or after `j` where a property declaration match
/// begins.
pub open spec fn find_prop_at(line: Seq<char>, j: int) -> Option<int>
    decreases line.len() - j,
{
    if j < 0 || j >= line.len() {
        None
    } else if prop_match_at(line, j) {
        Some(j)
    } else {
        find_prop_at(line, j + 1)
    }
}

/// The property name and type expression captured from a line, if the line
/// holds a property declaration: the name is the earliest qualifying word
/// run, and the type expression runs from after the `: ` to the last
/// semicolon on the line.
pub open spec fn prop_match(line: Seq<char>) -> Option<(Seq<char>, Seq<char>)> {
    match find_prop_at(line, 0) {
        None => None,
        Some(j) => {
            let e = word_end(line, j);
            let z = last_semi(line).unwrap();
            Some((line.subrange(j, e), line.subrange(e + 2, z)))
        },
    }
}

pub proof fn lemma_find_prop_none(line: Seq<char>, j: int)
    requires
        forall|k: int| j <= k < line.len() ==> !prop_match_at(line, k),
    ensures
        find_prop_at(line, j) is None,
    decreases line.len() - j,
{
    if 0 <= j && j < line.len() {
        lemma_find_prop_none(line, j + 1);
    }
}

pub proof fn lemma_find_prop_found(line: Seq<char>, i: int, j: int)
    requires
        0 <= i <= j < line.len(),
        prop_match_at(line, j),
        forall|k: int| i <= k < j ==> !prop_match_at(line, k),
    ensures
        find_prop_at(line, i) == Some(j),
    decreases j - i,
{
    if i < j {
        lemma_find_prop_found(line, i + 1, j);
    }
}

/// Advances past the word-character run that starts at `j`.
fn word_end_exec(line: &Vec<char>, j: usize) -> (e: usize)
    requires
        j <= line@.len(),
    ensures
        e == word_end(line@, j as int),
        j <= e <= line@.len(),
{
    let n = line.len();
    let mut e = j;
    while e < n && is_word(line[e])
        invariant
            j <= e <= n,
            n == line@.len(),
            word_end(line@, j as int) == word_end(line@, e as int),
        decreases n - e,
    {
        e = e + 1;
    }
    e
}

/// Copies `line[from..to]` into a fresh vector.
fn copy_range(line: &Vec<char>, from: usize, to: usize) -> (r: Vec<char>)
    requires
        from <= to <= line@.len(),
    ensures
        r@ == line@.subrange(from as int, to as int),
{
    let mut r: Vec<char> = Vec::new();
    let mut k = from;
    while k < to
        invariant
            from <= k <= to <= line@.len(),
            r@ == line@.subrange(from as int, k as int),
        decreases to - k,
    {
        r.push(line[k]);
        proof {
            assert(r@ =~= line@.subrange(from as int, k + 1));
        }
        k = k + 1;
    }
    r
}

/// Tests a line for a class declaration and captures the class name.
pub fn match_class_line(line: &Vec<char>) -> (r: Option<Vec<char>>)
    ensures
        match class_match(line@) {
            Some(name) => r is Some && r.unwrap()@ == name,
            None => r is None,
        },
{
    let n = line.len();
    if n < 7 {
        proof {
            lemma_find_class_none(line@, 0);
        }
        return None;
    }
    let mut i: usize = 0;
    while i + 6 < n
        invariant
            n == line@.len(),
            i + 6 <= n,
            forall|k: int| 0 <= k < i ==> !class_match_at(line@, k),
        decreases n - i,
    {
        if line[i] == 'c' && line[i + 1] == 'l' && line[i + 2] == 'a' && line[i + 3] == 's'
            && line[i + 4] == 's' && line[i + 5] == ' ' && is_word(line[i + 6]) {
            let e = word_end_exec(line, i + 6);
            proof {
                lemma_find_class_found(line@, 0, i as int);
            }
            return Some(copy_range(line, i + 6, e));
        }
        i = i + 1;
    }
    proof {
        assert(forall|k: int| 0 <= k < line@.len() ==> !class_match_at(line@, k));
        lemma_find_class_none(line@, 0);
    }
    None
}

/// Finds the index of the last semicolon on the line.
fn last_semi_exec(line: &Vec<char>) -> (r: Option<usize>)
    ensures
        match last_semi(line@) {
            Some(z) => r is Some && r.unwrap() == z,
            None => r is None,
        },
{
    let mut j = line.len();
    loop
        invariant
            j <= line@.len(),
            last_semi(line@) == last_semi_before(line@, j as int),
        decreases j,
    {
        if j == 0 {
            return None;
        }
        if line[j - 1] == ';' {
            return Some(j - 1);
        }
        j = j - 1;
    }
}

/// Tests a line for a property declaration and captures the property name
/// and type expression.
pub fn match_prop_line(line: &Vec<char>) -> (r: Option<(Vec<char>, Vec<char>)>)
    ensures
        match prop_match(line@) {
            Some(kv) => {
                &&& r is Some
                &&& r.unwrap().0@ == kv.0
                &&& r.unwrap().1@ == kv.1
            },
            None => r is None,
        },
{
    let n = line.len();
    let semi = last_semi_exec(line);
    let mut j: usize = 0;
    while j < n
        invariant
            n == line@.len(),
            j <= n,
            match last_semi(line@) {
                Some(z) => semi is Some && semi.unwrap() == z,
                None => semi is None,
            },
            forall|k: int| 0 <= k < j ==> !prop_match_at(line@, k),
        decreases n - j,
    {
        if is_word(line[j]) {
            let e = word_end_exec(line, j);
            if e < n && line[e] == ':' && e + 1 < n && line[e + 1] == ' ' {
                match semi {
                    Some(z) => {
                        if z >= e + 2 {
                            proof {
                                lemma_last_semi_bounds(line@, line@.len() as int);
                                lemma_find_prop_found(line@, 0, j as int);
                            }
                            let name = copy_range(line, j, e);
                            let ty = copy_range(line, e + 2, z);
                            return Some((name, ty));
                        }
                    },
                    None => {},
                }
            }
        }
        proof {
            assert(!prop_match_at(line@, j as int));
        }
        j = j + 1;
    }
    proof {
        lemma_find_prop_none(line@, 0);
    }
    None
}

} // verus!
