//! The extraction state machine and its entry points.
//!
//! The machine consumes the lines of one document through a forward-only
//! cursor in two sequential phases: the class search scans for the first
//! class declaration line, and the property search harvests property
//! declarations from every remaining line.  Unmatched lines are skipped
//! silently; the machine never reports a parse error.

use vstd::prelude::*;
use crate::text::{spec_lines, split_lines};
use crate::pattern::{class_match, prop_match, match_class_line, match_prop_line};
use crate::record::{SchemaRecord, spec_insert, sorted_strict, pairs_value, lemma_insert_finds, lemma_insert_keeps_others, lemma_spec_insert_sorted};
use crate::json::{json_record, json_array, json_items, record_json, push_record};

verus! {

/// The first line index at or after `i` holding a class declaration.
pub open spec fn find_class_line(lines: Seq<Seq<char>>, i: int) -> Option<int>
    decreases lines.len() - i,
{
    if i < 0 || i >= lines.len() {
        None
    } else if class_match(lines[i]) is Some {
        Some(i)
    } else {
        find_class_line(lines, i + 1)
    }
}

pub proof fn lemma_find_class_line_none(lines: Seq<Seq<char>>, i: int)
    requires
        forall|k: int| i <= k < lines.len() ==> class_match(#[trigger] lines[k]) is None,
    ensures
        find_class_line(lines, i) is None,
    decreases lines.len() - i,
{
    if 0 <= i && i < lines.len() {
        lemma_find_class_line_none(lines, i + 1);
    }
}

pub proof fn lemma_find_class_line_found(lines: Seq<Seq<char>>, i: int, j: int)
    requires
        0 <= i <= j < lines.len(),
        class_match(lines[j]) is Some,
        forall|k: int| i <= k < j ==> class_match(#[trigger] lines[k]) is None,
    ensures
        find_class_line(lines, i) == Some(j),
    decreases j - i,
{
    if i < j {
        lemma_find_class_line_found(lines, i + 1, j);
    }
}

/// The property pairs harvested from the lines at index `i` and after,
/// inserted in line order into the accumulated pairs `acc`.
pub open spec fn props_from(
    lines: Seq<Seq<char>>,
    i: int,
    acc: Seq<(Seq<char>, Seq<char>)>,
) -> Seq<(Seq<char>, Seq<char>)>
    decreases lines.len() - i,
{
    if i < 0 || i >= lines.len() {
        acc
    } else {
        match prop_match(lines[i]) {
            Some(kv) => props_from(lines, i + 1, spec_insert(acc, kv.0, kv.1)),
            None => props_from(lines, i + 1, acc),
        }
    }
}

/// The schema extracted from a line sequence: the class name captured from
/// the first class declaration line, and the properties harvested from the
/// lines after it.  Without a class declaration both are empty.
pub open spec fn extraction(lines: Seq<Seq<char>>) -> (Seq<char>, Seq<(Seq<char>, Seq<char>)>) {
    match find_class_line(lines, 0) {
        None => (Seq::empty(), Seq::empty()),
        Some(ci) => (class_match(lines[ci]).unwrap(), props_from(lines, ci + 1, Seq::empty())),
    }
}

/// The schema extracted from one document's text.
pub open spec fn doc_record(doc: Seq<char>) -> (Seq<char>, Seq<(Seq<char>, Seq<char>)>) {
    extraction(spec_lines(doc))
}

/// The records of the documents at index `i` and after, keeping only those
/// with a non-empty class name, in document order.
pub open spec fn batch_from(docs: Seq<Seq<char>>, i: int) -> Seq<
    (Seq<char>, Seq<(Seq<char>, Seq<char>)>),
>
    decreases docs.len() - i,
{
    if i < 0 || i >= docs.len() {
        Seq::empty()
    } else {
        let rest = batch_from(docs, i + 1);
        if doc_record(docs[i]).0.len() == 0 {
            rest
        } else {
            seq![doc_record(docs[i])] + rest
        }
    }
}

pub proof fn lemma_find_class_line_inv(lines: Seq<Seq<char>>, i: int, ci: int)
    requires
        0 <= i,
        find_class_line(lines, i) == Some(ci),
    ensures
        i <= ci < lines.len(),
        class_match(lines[ci]) is Some,
        forall|k: int| i <= k < ci ==> class_match(#[trigger] lines[k]) is None,
    decreases lines.len() - i,
{
    if i < lines.len() && class_match(lines[i]) is None {
        lemma_find_class_line_inv(lines, i + 1, ci);
    }
}

/// A document in which no line holds a class declaration yields a record
/// with an empty class name and an empty property mapping.
pub proof fn lemma_no_class_empty_record(lines: Seq<Seq<char>>)
    requires
        forall|k: int| 0 <= k < lines.len() ==> class_match(#[trigger] lines[k]) is None,
    ensures
        extraction(lines).0 == Seq::<char>::empty(),
        extraction(lines).1 == Seq::<(Seq<char>, Seq<char>)>::empty(),
{
    lemma_find_class_line_none(lines, 0);
}

proof fn lemma_props_from_congruent(
    l1: Seq<Seq<char>>,
    l2: Seq<Seq<char>>,
    i: int,
    acc: Seq<(Seq<char>, Seq<char>)>,
)
    requires
        l1.len() == l2.len(),
        forall|k: int| i <= k < l1.len() ==> prop_match(#[trigger] l1[k]) == prop_match(l2[k]),
    ensures
        props_from(l1, i, acc) == props_from(l2, i, acc),
    decreases l1.len() - i,
{
    if 0 <= i && i < l1.len() {
        match prop_match(l1[i]) {
            Some(kv) => {
                lemma_props_from_congruent(l1, l2, i + 1, spec_insert(acc, kv.0, kv.1));
            },
            None => {
                lemma_props_from_congruent(l1, l2, i + 1, acc);
            },
        }
    }
}

/// Only the first class declaration line is recognized: the lines after it
/// are scanned for property shapes alone, so replacing any later line by
/// one with the same property match — in particular by a second class
/// declaration line, or instead of one — leaves the extraction unchanged.
pub proof fn lemma_after_class_only_property_shapes(lines: Seq<Seq<char>>, j: int, l2: Seq<char>)
    requires
        find_class_line(lines, 0) is Some,
        find_class_line(lines, 0).unwrap() < j < lines.len(),
        prop_match(lines[j]) == prop_match(l2),
    ensures
        extraction(lines.update(j, l2)) == extraction(lines),
{
    let ci = find_class_line(lines, 0).unwrap();
    let lines2 = lines.update(j, l2);
    lemma_find_class_line_inv(lines, 0, ci);
    assert(lines2[ci] == lines[ci]);
    assert(forall|k: int| 0 <= k < ci ==> class_match(#[trigger] lines2[k]) is None);
    lemma_find_class_line_found(lines2, 0, ci);
    assert(forall|k: int|
        ci + 1 <= k < lines.len() ==> prop_match(#[trigger] lines[k]) == prop_match(lines2[k]));
    lemma_props_from_congruent(lines, lines2, ci + 1, Seq::empty());
}

proof fn lemma_props_from_keeps(
    lines: Seq<Seq<char>>,
    i: int,
    acc: Seq<(Seq<char>, Seq<char>)>,
    k: Seq<char>,
)
    requires
        forall|m: int|
            i <= m < lines.len() ==> (prop_match(#[trigger] lines[m]) is None || prop_match(
                lines[m],
            ).unwrap().0 != k),
    ensures
        pairs_value(props_from(lines, i, acc), k) == pairs_value(acc, k),
    decreases lines.len() - i,
{
    if 0 <= i && i < lines.len() {
        match prop_match(lines[i]) {
            Some(kv) => {
                lemma_insert_keeps_others(acc, kv.0, kv.1, k);
                lemma_props_from_keeps(lines, i + 1, spec_insert(acc, kv.0, kv.1), k);
            },
            None => {
                lemma_props_from_keeps(lines, i + 1, acc, k);
            },
        }
    }
}

/// When the same property name occurs on several lines, the last
/// occurrence's type expression wins.
pub proof fn lemma_last_occurrence_wins(
    lines: Seq<Seq<char>>,
    i: int,
    acc: Seq<(Seq<char>, Seq<char>)>,
    j: int,
    k: Seq<char>,
    v: Seq<char>,
)
    requires
        0 <= i <= j < lines.len(),
        prop_match(lines[j]) == Some((k, v)),
        forall|m: int|
            j < m < lines.len() ==> (prop_match(#[trigger] lines[m]) is None || prop_match(
                lines[m],
            ).unwrap().0 != k),
    ensures
        pairs_value(props_from(lines, i, acc), k) == Some(v),
    decreases j - i,
{
    if i == j {
        lemma_insert_finds(acc, k, v);
        lemma_props_from_keeps(lines, i + 1, spec_insert(acc, k, v), k);
    } else {
        match prop_match(lines[i]) {
            Some(kv) => {
                lemma_last_occurrence_wins(lines, i + 1, spec_insert(acc, kv.0, kv.1), j, k, v);
            },
            None => {
                lemma_last_occurrence_wins(lines, i + 1, acc, j, k, v);
            },
        }
    }
}

proof fn lemma_props_from_sorted(lines: Seq<Seq<char>>, i: int, acc: Seq<(Seq<char>, Seq<char>)>)
    requires
        sorted_strict(acc),
    ensures
        sorted_strict(props_from(lines, i, acc)),
    decreases lines.len() - i,
{
    if 0 <= i && i < lines.len() {
        match prop_match(lines[i]) {
            Some(kv) => {
                lemma_spec_insert_sorted(acc, kv.0, kv.1);
                lemma_props_from_sorted(lines, i + 1, spec_insert(acc, kv.0, kv.1));
            },
            None => {
                lemma_props_from_sorted(lines, i + 1, acc);
            },
        }
    }
}

/// The property pairs of an extracted record stand in strictly ascending
/// key order, whatever order the properties were discovered in; rendering
/// therefore emits the keys alphabetized.
pub proof fn lemma_extraction_sorted(lines: Seq<Seq<char>>)
    ensures
        sorted_strict(extraction(lines).1),
{
    match find_class_line(lines, 0) {
        None => {},
        Some(ci) => {
            lemma_props_from_sorted(lines, ci + 1, Seq::empty());
        },
    }
}

/// How many of the documents at index `i` and after yield no class
/// declaration.
pub open spec fn count_no_class(docs: Seq<Seq<char>>, i: int) -> int
    decreases docs.len() - i,
{
    if i < 0 || i >= docs.len() {
        0
    } else {
        (if doc_record(docs[i]).0.len() == 0 {
            1int
        } else {
            0int
        }) + count_no_class(docs, i + 1)
    }
}

/// A batch over N documents of which M yield no class declaration holds
/// exactly N − M records; the construction keeps them in document order.
pub proof fn lemma_batch_len(docs: Seq<Seq<char>>, i: int)
    requires
        0 <= i <= docs.len(),
    ensures
        batch_from(docs, i).len() == docs.len() - i - count_no_class(docs, i),
    decreases docs.len() - i,
{
    if i < docs.len() {
        lemma_batch_len(docs, i + 1);
    }
}

/// Each document that yields a class contributes its record to the batch.
pub proof fn lemma_batch_member(docs: Seq<Seq<char>>, i: int, p: int)
    requires
        0 <= i <= p < docs.len(),
        doc_record(docs[p]).0.len() != 0,
    ensures
        exists|q: int|
            0 <= q < batch_from(docs, i).len() && #[trigger] batch_from(docs, i)[q] == doc_record(
                docs[p],
            ),
    decreases p - i,
{
    if i == p {
        assert(batch_from(docs, i)[0] == doc_record(docs[p]));
    } else {
        lemma_batch_member(docs, i + 1, p);
        let q = choose|q: int|
            0 <= q < batch_from(docs, i + 1).len() && #[trigger] batch_from(docs, i + 1)[q]
                == doc_record(docs[p]);
        if doc_record(docs[i]).0.len() == 0 {
            assert(batch_from(docs, i)[q] == doc_record(docs[p]));
        } else {
            assert(batch_from(docs, i)[q + 1] == doc_record(docs[p]));
        }
    }
}

/// The batch preserves the relative order of the surviving documents: two
/// documents that both yield a class stand in the batch in document order.
pub proof fn lemma_batch_order(docs: Seq<Seq<char>>, i: int, p1: int, p2: int)
    requires
        0 <= i <= p1 < p2 < docs.len(),
        doc_record(docs[p1]).0.len() != 0,
        doc_record(docs[p2]).0.len() != 0,
    ensures
        exists|q1: int, q2: int|
            #![trigger batch_from(docs, i)[q1], batch_from(docs, i)[q2]]
            {
                &&& 0 <= q1 < q2 < batch_from(docs, i).len()
                &&& batch_from(docs, i)[q1] == doc_record(docs[p1])
                &&& batch_from(docs, i)[q2] == doc_record(docs[p2])
            },
    decreases p1 - i,
{
    if i == p1 {
        lemma_batch_member(docs, i + 1, p2);
        let q = choose|q: int|
            0 <= q < batch_from(docs, i + 1).len() && #[trigger] batch_from(docs, i + 1)[q]
                == doc_record(docs[p2]);
        assert(batch_from(docs, i)[0] == doc_record(docs[p1]));
        assert(batch_from(docs, i)[q + 1] == doc_record(docs[p2]));
    } else {
        lemma_batch_order(docs, i + 1, p1, p2);
        let (q1, q2) = choose|q1: int, q2: int|
            #![trigger batch_from(docs, i + 1)[q1], batch_from(docs, i + 1)[q2]]
            {
                &&& 0 <= q1 < q2 < batch_from(docs, i + 1).len()
                &&& batch_from(docs, i + 1)[q1] == doc_record(docs[p1])
                &&& batch_from(docs, i + 1)[q2] == doc_record(docs[p2])
            };
        if doc_record(docs[i]).0.len() == 0 {
            assert(batch_from(docs, i)[q1] == doc_record(docs[p1]));
            assert(batch_from(docs, i)[q2] == doc_record(docs[p2]));
        } else {
            assert(batch_from(docs, i)[q1 + 1] == doc_record(docs[p1]));
            assert(batch_from(docs, i)[q2 + 1] == doc_record(docs[p2]));
        }
    }
}

/// The failure reported when rendering a result to output text fails.
#[derive(Debug)]
pub struct UnableToParse;

enum ParserState {
    ClassParse,
    PropertyParse,
    Complete,
}

/// The extraction state machine for one document.
pub struct TypescriptSchemaParser {
    doc_lines: Vec<Vec<char>>,
    pos: usize,
    record: SchemaRecord,
    state: ParserState,
}

impl TypescriptSchemaParser {
    /// The lines of the document under extraction.
    pub closed spec fn lines(&self) -> Seq<Seq<char>> {
        self.doc_lines.deep_view()
    }

    /// The cursor: every line before it has been consumed.
    pub closed spec fn cursor(&self) -> int {
        self.pos as int
    }

    /// The class name extracted so far.
    pub closed spec fn class(&self) -> Seq<char> {
        self.record.class()
    }

    /// The property pairs extracted so far, in ascending key order.
    pub closed spec fn pairs(&self) -> Seq<(Seq<char>, Seq<char>)> {
        self.record.pairs()
    }

    /// The machine is in its initial phase, searching for a class line.
    pub closed spec fn in_class_search(&self) -> bool {
        self.state is ClassParse
    }

    /// The machine is in its second phase, harvesting property lines.
    pub closed spec fn in_property_search(&self) -> bool {
        self.state is PropertyParse
    }

    /// The machine has reached its terminal state.
    pub closed spec fn complete(&self) -> bool {
        self.state is Complete
    }

    /// How many processing steps remain at most.
    pub closed spec fn rank(&self) -> int {
        match self.state {
            ParserState::ClassParse => 2,
            ParserState::PropertyParse => 1,
            ParserState::Complete => 0,
        }
    }

    /// The machine's invariant, tying each phase to what has been
    /// extracted from the consumed prefix of the lines.
    pub closed spec fn wf(&self) -> bool {
        &&& self.pos <= self.doc_lines@.len()
        &&& sorted_strict(self.pairs())
        &&& match self.state {
            ParserState::ClassParse => {
                &&& self.class().len() == 0
                &&& self.pairs() == Seq::<(Seq<char>, Seq<char>)>::empty()
                &&& forall|k: int|
                    0 <= k < self.pos ==> class_match(#[trigger] self.lines()[k]) is None
            },
            ParserState::PropertyParse => {
                &&& 1 <= self.pos
                &&& find_class_line(self.lines(), 0) == Some(self.pos - 1)
                &&& class_match(self.lines()[self.pos - 1]) is Some
                &&& self.class() == class_match(self.lines()[self.pos - 1]).unwrap()
                &&& self.pairs() == Seq::<(Seq<char>, Seq<char>)>::empty()
            },
            ParserState::Complete => {
                &&& self.pos == self.doc_lines@.len()
                &&& self.class() == extraction(self.lines()).0
                &&& self.pairs() == extraction(self.lines()).1
            },
        }
    }

    /// A fresh machine over the given document text, in the class-search
    /// phase with an empty record.
    pub fn new(doc_string: &str) -> (r: Self)
        ensures
            r.wf(),
            r.lines() == spec_lines(doc_string@),
            r.in_class_search(),
            r.cursor() == 0,
            r.class() == Seq::<char>::empty(),
            r.pairs() == Seq::<(Seq<char>, Seq<char>)>::empty(),
    {
        TypescriptSchemaParser {
            doc_lines: split_lines(doc_string),
            pos: 0,
            record: SchemaRecord::empty(),
            state: ParserState::ClassParse,
        }
    }

    /// The class-search phase: consume lines until the first class
    /// declaration, capture its class name, and hand over to the property
    /// search; reach the terminal state if no line matches.
    fn class_parse(&mut self)
        requires
            old(self).wf(),
            old(self).in_class_search(),
        ensures
            final(self).wf(),
            final(self).lines() == old(self).lines(),
            match find_class_line(old(self).lines(), 0) {
                Some(ci) => {
                    &&& final(self).in_property_search()
                    &&& final(self).cursor() == ci + 1
                    &&& final(self).class() == class_match(old(self).lines()[ci]).unwrap()
                    &&& final(self).pairs() == old(self).pairs()
                },
                None => {
                    &&& final(self).complete()
                    &&& final(self).class().len() == 0
                    &&& final(self).pairs() == old(self).pairs()
                },
            },
    {
        let ghost lines = self.lines();
        let n = self.doc_lines.len();
        let mut i = self.pos;
        loop
            invariant_except_break
                self == old(self),
                old(self).wf(),
                old(self).in_class_search(),
                lines == self.lines(),
                n == self.doc_lines@.len(),
                old(self).cursor() <= i as int <= n,
                forall|k: int| 0 <= k < i ==> class_match(#[trigger] lines[k]) is None,
            ensures
                self == old(self),
                lines == self.lines(),
                i == n,
                n == self.doc_lines@.len(),
                forall|k: int| 0 <= k < i ==> class_match(#[trigger] lines[k]) is None,
            decreases n - i,
        {
            if i >= n {
                break;
            }
            let m = match_class_line(&self.doc_lines[i]);
            proof {
                assert(lines[i as int] =~= self.doc_lines@[i as int]@);
            }
            match m {
                Some(name) => {
                    proof {
                        lemma_find_class_line_found(lines, 0, i as int);
                    }
                    self.record.class_name = name;
                    self.state = ParserState::PropertyParse;
                    self.pos = i + 1;
                    return;
                },
                None => {
                    i = i + 1;
                },
            }
        }
        proof {
            assert(lines.len() == n as int);
            lemma_find_class_line_none(lines, 0);
            assert(self.record.class() =~= Seq::<char>::empty());
        }
        self.pos = n;
        self.state = ParserState::Complete;
    }

    /// The property-search phase: consume every remaining line in one
    /// pass, inserting each property match, and reach the terminal state.
    fn property_parse(&mut self)
        requires
            old(self).wf(),
            old(self).in_property_search(),
        ensures
            final(self).wf(),
            final(self).lines() == old(self).lines(),
            final(self).complete(),
            final(self).class() == old(self).class(),
            final(self).pairs() == props_from(
                old(self).lines(),
                old(self).cursor(),
                old(self).pairs(),
            ),
    {
        let ghost lines = self.lines();
        let ghost pos0 = self.cursor();
        let n = self.doc_lines.len();
        let mut i = self.pos;
        while i < n
            invariant
                old(self).cursor() <= i as int <= n,
                lines == self.lines(),
                pos0 == old(self).cursor(),
                n == self.doc_lines@.len(),
                self.doc_lines == old(self).doc_lines,
                self.pos == old(self).pos,
                self.state is PropertyParse,
                self.class() == old(self).class(),
                sorted_strict(self.pairs()),
                props_from(lines, pos0, old(self).pairs()) == props_from(
                    lines,
                    i as int,
                    self.pairs(),
                ),
            decreases n - i,
        {
            let m = match_prop_line(&self.doc_lines[i]);
            proof {
                assert(lines[i as int] =~= self.doc_lines@[i as int]@);
            }
            match m {
                Some(kv) => {
                    let (key, val) = kv;
                    self.record.insert_prop(key, val);
                },
                None => {},
            }
            i = i + 1;
        }
        self.pos = n;
        self.state = ParserState::Complete;
        proof {
            assert(extraction(lines).0 == self.class());
            assert(extraction(lines).1 == props_from(lines, pos0, Seq::empty()));
        }
    }

    /// One machine step: run the phase the machine is in, and report
    /// whether another step remains.
    pub fn process(&mut self) -> (more: bool)
        requires
            old(self).wf(),
        ensures
            final(self).wf(),
            final(self).lines() == old(self).lines(),
            more == !old(self).complete(),
            more ==> final(self).rank() < old(self).rank(),
            old(self).in_class_search() ==> match find_class_line(old(self).lines(), 0) {
                Some(ci) => {
                    &&& final(self).in_property_search()
                    &&& final(self).cursor() == ci + 1
                    &&& final(self).class() == class_match(old(self).lines()[ci]).unwrap()
                    &&& final(self).pairs() == old(self).pairs()
                },
                None => {
                    &&& final(self).complete()
                    &&& final(self).class().len() == 0
                    &&& final(self).pairs() == old(self).pairs()
                },
            },
            old(self).in_property_search() ==> {
                &&& final(self).complete()
                &&& final(self).class() == old(self).class()
                &&& final(self).pairs() == props_from(
                    old(self).lines(),
                    old(self).cursor(),
                    old(self).pairs(),
                )
            },
            old(self).complete() ==> *final(self) == *old(self),
            final(self).complete() ==> {
                &&& final(self).cursor() == final(self).lines().len()
                &&& final(self).class() == extraction(final(self).lines()).0
                &&& final(self).pairs() == extraction(final(self).lines()).1
            },
    {
        match self.state {
            ParserState::ClassParse => {
                self.class_parse();
                true
            },
            ParserState::PropertyParse => {
                self.property_parse();
                true
            },
            ParserState::Complete => false,
        }
    }

    /// Extracts the schema of one document and renders it as a JSON
    /// object, whether or not a class declaration was found.
    pub fn parse_single(doc_string: &str) -> (r: Result<String, UnableToParse>)
        ensures
            r is Ok,
            r matches Ok(out) ==> out@ == json_record(
                doc_record(doc_string@).0,
                doc_record(doc_string@).1,
            ),
    {
        let mut parser = TypescriptSchemaParser::new(doc_string);
        loop
            invariant_except_break
                parser.wf(),
                parser.lines() == spec_lines(doc_string@),
            ensures
                parser.wf(),
                parser.complete(),
                parser.lines() == spec_lines(doc_string@),
            decreases parser.rank(),
        {
            if !parser.process() {
                break;
            }
        }
        Ok(record_json(&parser.record))
    }

    /// Extracts the schema of every document in the given ordered list,
    /// keeps the records with a non-empty class name in the list's order,
    /// and renders them as a JSON array.
    pub fn parse(doc_strings: Vec<String>) -> (r: Result<String, UnableToParse>)
        ensures
            r is Ok,
            r matches Ok(out) ==> out@ == json_array(batch_from(doc_strings.deep_view(), 0)),
    {
        let ghost dv = doc_strings.deep_view();
        let mut out = String::new();
        out.push('[');
        let ghost mut acc: Seq<(Seq<char>, Seq<(Seq<char>, Seq<char>)>)> = Seq::empty();
        let n = doc_strings.len();
        let mut i: usize = 0;
        let mut first = true;
        while i < n
            invariant
                n == doc_strings@.len(),
                i <= n,
                dv == doc_strings.deep_view(),
                first == (acc.len() == 0),
                batch_from(dv, 0) == acc + batch_from(dv, i as int),
                out@ == seq!['['] + json_items(acc),
            decreases n - i,
        {
            let mut parser = TypescriptSchemaParser::new(doc_strings[i].as_str());
            proof {
                assert(dv[i as int] =~= doc_strings@[i as int]@);
            }
            loop
                invariant_except_break
                    parser.wf(),
                    parser.lines() == spec_lines(dv[i as int]),
                ensures
                    parser.wf(),
                    parser.complete(),
                    parser.lines() == spec_lines(dv[i as int]),
                decreases parser.rank(),
            {
                if !parser.process() {
                    break;
                }
            }
            if parser.record.class_name.len() > 0 {
                if !first {
                    out.push(',');
                }
                first = false;
                push_record(&mut out, &parser.record);
                proof {
                    let rec = doc_record(dv[i as int]);
                    assert(rec.0 == parser.class() && rec.1 == parser.pairs());
                    assert(acc.push(rec).drop_last() =~= acc);
                    assert(acc.push(rec).last() == rec);
                    assert(out@ =~= seq!['['] + json_items(acc.push(rec)));
                    assert(batch_from(dv, i as int) == seq![rec] + batch_from(dv, i + 1));
                    let ghost prev = acc;
                    acc = acc.push(rec);
                    assert(acc =~= prev + seq![rec]);
                    assert(batch_from(dv, 0) =~= acc + batch_from(dv, i + 1));
                }
            } else {
                proof {
                    assert(batch_from(dv, i as int) =~= batch_from(dv, i + 1));
                }
            }
            i = i + 1;
        }
        proof {
            assert(batch_from(dv, n as int) =~= Seq::<
                (Seq<char>, Seq<(Seq<char>, Seq<char>)>),
            >::empty());
            assert(acc =~= batch_from(dv, 0));
        }
        out.push(']');
        proof {
            assert(out@ =~= json_array(batch_from(dv, 0)));
        }
        Ok(out)
    }
}

} // verus!
