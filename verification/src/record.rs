//! The schema record: a class name and a property mapping with unique
//! keys, kept in strictly ascending lexicographic key order, where a later
//! insertion of an existing key overwrites the earlier value.

use vstd::prelude::*;
use crate::text::{lex_lt, lex_lt_from, lex_less};

verus! {

/// The keys of the pair sequence are strictly ascending, so in particular
/// unique.
pub open spec fn sorted_strict(ps: Seq<(Seq<char>, Seq<char>)>) -> bool {
    forall|i: int, j: int|
        0 <= i < j < ps.len() ==> #[trigger] lex_lt(ps[i].0, ps[j].0)
}

/// Insertion into a key-ordered pair sequence: an existing key keeps its
/// place and takes the new value, a new key enters at its ordered position.
pub open spec fn spec_insert(
    ps: Seq<(Seq<char>, Seq<char>)>,
    k: Seq<char>,
    v: Seq<char>,
) -> Seq<(Seq<char>, Seq<char>)>
    decreases ps.len(),
{
    if ps.len() == 0 {
        seq![(k, v)]
    } else if lex_lt(k, ps[0].0) {
        seq![(k, v)] + ps
    } else if k == ps[0].0 {
        seq![(k, v)] + ps.drop_first()
    } else {
        seq![ps[0]] + spec_insert(ps.drop_first(), k, v)
    }
}

proof fn lemma_lex_from_total(a: Seq<char>, b: Seq<char>, i: int)
    requires
        0 <= i <= a.len(),
        i <= b.len(),
    ensures
        !lex_lt_from(a, b, i) && !lex_lt_from(b, a, i) ==> a.skip(i) == b.skip(i),
    decreases a.len() + b.len() - i,
{
    if i < a.len() && i < b.len() {
        if a[i] == b[i] {
            lemma_lex_from_total(a, b, i + 1);
            if !lex_lt_from(a, b, i) && !lex_lt_from(b, a, i) {
                assert(a.skip(i) =~= seq![a[i]] + a.skip(i + 1));
                assert(b.skip(i) =~= seq![b[i]] + b.skip(i + 1));
            }
        }
    } else {
        if !lex_lt_from(a, b, i) && !lex_lt_from(b, a, i) {
            assert(a.skip(i) =~= b.skip(i));
        }
    }
}

/// Lexicographic order is total: two sequences are ordered one way or the
/// other, or they are equal.
pub proof fn lemma_lex_total(a: Seq<char>, b: Seq<char>)
    ensures
        lex_lt(a, b) || lex_lt(b, a) || a == b,
{
    lemma_lex_from_total(a, b, 0);
    if !lex_lt(a, b) && !lex_lt(b, a) {
        assert(a.skip(0) =~= a);
        assert(b.skip(0) =~= b);
    }
}

proof fn lemma_lex_from_asym(a: Seq<char>, b: Seq<char>, i: int)
    requires
        0 <= i,
    ensures
        lex_lt_from(a, b, i) ==> !lex_lt_from(b, a, i),
    decreases b.len() - i,
{
    if i < b.len() && i < a.len() && a[i] == b[i] {
        lemma_lex_from_asym(a, b, i + 1);
    }
}

/// Lexicographic order is asymmetric.
pub proof fn lemma_lex_asym(a: Seq<char>, b: Seq<char>)
    ensures
        lex_lt(a, b) ==> !lex_lt(b, a),
{
    lemma_lex_from_asym(a, b, 0);
}

proof fn lemma_lex_from_trans(a: Seq<char>, b: Seq<char>, c: Seq<char>, i: int)
    requires
        0 <= i,
    ensures
        lex_lt_from(a, b, i) && lex_lt_from(b, c, i) ==> lex_lt_from(a, c, i),
    decreases c.len() - i,
{
    if i < a.len() && i < b.len() && i < c.len() && a[i] == b[i] && b[i] == c[i] {
        lemma_lex_from_trans(a, b, c, i + 1);
    }
}

/// Lexicographic order is irreflexive.
pub proof fn lemma_lex_irrefl(a: Seq<char>)
    ensures
        !lex_lt(a, a),
{
    lemma_lex_from_asym(a, a, 0);
}

/// Lexicographic order is transitive.
pub proof fn lemma_lex_trans(a: Seq<char>, b: Seq<char>, c: Seq<char>)
    ensures
        lex_lt(a, b) && lex_lt(b, c) ==> lex_lt(a, c),
{
    lemma_lex_from_trans(a, b, c, 0);
}

/// The pair sequence a property vector stands for.
pub open spec fn pairs_view(props: Seq<(Vec<char>, Vec<char>)>) -> Seq<(Seq<char>, Seq<char>)> {
    Seq::new(props.len(), |i: int| (props[i].0@, props[i].1@))
}

proof fn lemma_spec_insert_at(
    ps: Seq<(Seq<char>, Seq<char>)>,
    k: Seq<char>,
    v: Seq<char>,
    pos: int,
)
    requires
        0 <= pos <= ps.len(),
        forall|j: int| 0 <= j < pos ==> !lex_lt(k, #[trigger] ps[j].0) && k != ps[j].0,
        pos < ps.len() ==> (lex_lt(k, ps[pos].0) || k == ps[pos].0),
    ensures
        pos < ps.len() && k == ps[pos].0 ==> spec_insert(ps, k, v) == ps.update(pos, (k, v)),
        !(pos < ps.len() && k == ps[pos].0) ==> spec_insert(ps, k, v) == ps.take(pos) + seq![
            (k, v),
        ] + ps.skip(pos),
    decreases pos,
{
    if pos < ps.len() {
        lemma_lex_irrefl(ps[pos].0);
    }
    if pos == 0 {
        if ps.len() == 0 {
            assert(spec_insert(ps, k, v) =~= ps.take(0) + seq![(k, v)] + ps.skip(0));
        } else if lex_lt(k, ps[0].0) {
            assert(spec_insert(ps, k, v) =~= ps.take(0) + seq![(k, v)] + ps.skip(0));
        } else {
            assert(k == ps[0].0);
            assert(spec_insert(ps, k, v) =~= ps.update(0, (k, v)));
        }
    } else {
        let tail = ps.drop_first();
        assert(forall|j: int|
            0 <= j < pos - 1 ==> !lex_lt(k, #[trigger] tail[j].0) && k != tail[j].0);
        lemma_spec_insert_at(tail, k, v, pos - 1);
        assert(spec_insert(ps, k, v) == seq![ps[0]] + spec_insert(tail, k, v));
        if pos < ps.len() && k == ps[pos].0 {
            assert(seq![ps[0]] + tail.update(pos - 1, (k, v)) =~= ps.update(pos, (k, v)));
        } else {
            assert(seq![ps[0]] + (tail.take(pos - 1) + seq![(k, v)] + tail.skip(pos - 1)) =~= ps
                .take(pos) + seq![(k, v)] + ps.skip(pos));
        }
    }
}

proof fn lemma_insert_at_sorted(
    ps: Seq<(Seq<char>, Seq<char>)>,
    k: Seq<char>,
    v: Seq<char>,
    pos: int,
)
    requires
        0 <= pos <= ps.len(),
        sorted_strict(ps),
        forall|j: int| 0 <= j < pos ==> lex_lt(#[trigger] ps[j].0, k),
        pos < ps.len() ==> lex_lt(k, ps[pos].0),
    ensures
        sorted_strict(ps.take(pos) + seq![(k, v)] + ps.skip(pos)),
{
    let r = ps.take(pos) + seq![(k, v)] + ps.skip(pos);
    assert forall|i: int, j: int| 0 <= i < j < r.len() implies #[trigger] lex_lt(
        r[i].0,
        r[j].0,
    ) by {
        if i < pos && j == pos {
            assert(r[i] == ps[i]);
        } else if i < pos && j > pos {
            assert(r[i] == ps[i]);
            assert(r[j] == ps[j - 1]);
        } else if i == pos && j > pos {
            assert(r[j] == ps[j - 1]);
            if j - 1 > pos {
                lemma_lex_trans(k, ps[pos].0, ps[j - 1].0);
            }
        } else if i > pos {
            assert(r[i] == ps[i - 1]);
            assert(r[j] == ps[j - 1]);
        } else {
            assert(r[i] == ps[i]);
            assert(r[j] == ps[j]);
        }
    }
}

/// The schema record: the extracted class name and the property mapping,
/// with property pairs kept in strictly ascending key order.
pub(crate) struct SchemaRecord {
    pub(crate) class_name: Vec<char>,
    pub(crate) props: Vec<(Vec<char>, Vec<char>)>,
}

impl SchemaRecord {
    /// The extracted class name; empty means no class declaration was
    /// found.
    pub(crate) open spec fn class(&self) -> Seq<char> {
        self.class_name@
    }

    /// The property pairs, in stored order.
    pub(crate) open spec fn pairs(&self) -> Seq<(Seq<char>, Seq<char>)> {
        pairs_view(self.props@)
    }

    /// Well-formedness: the property keys are strictly ascending.
    pub(crate) open spec fn wf(&self) -> bool {
        sorted_strict(self.pairs())
    }

    /// A fresh record: empty class name, no properties.
    pub(crate) fn empty() -> (r: Self)
        ensures
            r.class() == Seq::<char>::empty(),
            r.pairs() == Seq::<(Seq<char>, Seq<char>)>::empty(),
            r.wf(),
    {
        let r = SchemaRecord { class_name: Vec::new(), props: Vec::new() };
        proof {
            assert(r.pairs() =~= Seq::<(Seq<char>, Seq<char>)>::empty());
        }
        r
    }

    /// Inserts a property, overwriting the value of an existing key.
    pub(crate) fn insert_prop(&mut self, key: Vec<char>, val: Vec<char>)
        requires
            old(self).wf(),
        ensures
            final(self).wf(),
            final(self).class() == old(self).class(),
            final(self).pairs() == spec_insert(old(self).pairs(), key@, val@),
    {
        let ghost p0 = self.pairs();
        let n = self.props.len();
        let mut pos: usize = 0;
        let mut found = false;
        loop
            invariant_except_break
                n == self.props@.len(),
                pos <= n,
                p0 == self.pairs(),
                old(self) == self,
                forall|j: int| 0 <= j < pos ==> lex_lt(#[trigger] p0[j].0, key@),
                !found,
            ensures
                n == self.props@.len(),
                pos <= n,
                p0 == self.pairs(),
                old(self) == self,
                forall|j: int| 0 <= j < pos ==> lex_lt(#[trigger] p0[j].0, key@),
                found ==> pos < n && p0[pos as int].0 == key@,
                !found && pos < n ==> lex_lt(key@, p0[pos as int].0),
                !found && pos == n ==> true,
                pos == n ==> !found,
            decreases n - pos,
        {
            if pos == n {
                break;
            }
            if lex_less(&key, &self.props[pos].0) {
                break;
            }
            if chars_eq(&key, &self.props[pos].0) {
                found = true;
                break;
            }
            proof {
                lemma_lex_total(p0[pos as int].0, key@);
            }
            pos = pos + 1;
        }
        proof {
            assert forall|j: int| 0 <= j < pos implies !lex_lt(key@, #[trigger] p0[j].0) && key@
                != p0[j].0 by {
                lemma_lex_asym(p0[j].0, key@);
            }
            lemma_lex_irrefl(key@);
            lemma_spec_insert_at(p0, key@, val@, pos as int);
        }
        if found {
            let _ = self.props.remove(pos);
            self.props.insert(pos, (key, val));
            proof {
                assert(self.pairs() =~~= p0.update(pos as int, (key@, val@)));
                assert forall|i: int, j: int| 0 <= i < j < self.pairs().len() implies #[trigger] lex_lt(
                    self.pairs()[i].0,
                    self.pairs()[j].0,
                ) by {
                    assert(self.pairs()[i].0 == p0[i].0);
                    assert(self.pairs()[j].0 == p0[j].0);
                }
            }
        } else {
            self.props.insert(pos, (key, val));
            proof {
                assert(self.pairs() =~~= p0.take(pos as int) + seq![(key@, val@)] + p0.skip(
                    pos as int,
                ));
                lemma_insert_at_sorted(p0, key@, val@, pos as int);
            }
        }
    }
}

/// The value stored under a key, if any.
pub open spec fn pairs_value(ps: Seq<(Seq<char>, Seq<char>)>, k: Seq<char>) -> Option<Seq<char>>
    decreases ps.len(),
{
    if ps.len() == 0 {
        None
    } else if ps[0].0 == k {
        Some(ps[0].1)
    } else {
        pairs_value(ps.drop_first(), k)
    }
}

/// Insertion stores the inserted value under the inserted key.
pub proof fn lemma_insert_finds(ps: Seq<(Seq<char>, Seq<char>)>, k: Seq<char>, v: Seq<char>)
    ensures
        pairs_value(spec_insert(ps, k, v), k) == Some(v),
    decreases ps.len(),
{
    lemma_lex_irrefl(k);
    if ps.len() == 0 {
    } else if lex_lt(k, ps[0].0) {
        assert((seq![(k, v)] + ps)[0] == (k, v));
    } else if k == ps[0].0 {
        assert((seq![(k, v)] + ps.drop_first())[0] == (k, v));
    } else {
        lemma_insert_finds(ps.drop_first(), k, v);
        assert((seq![ps[0]] + spec_insert(ps.drop_first(), k, v)).drop_first() =~= spec_insert(
            ps.drop_first(),
            k,
            v,
        ));
    }
}

/// Insertion leaves the value stored under every other key unchanged.
pub proof fn lemma_insert_keeps_others(
    ps: Seq<(Seq<char>, Seq<char>)>,
    k: Seq<char>,
    v: Seq<char>,
    k2: Seq<char>,
)
    requires
        k2 != k,
    ensures
        pairs_value(spec_insert(ps, k, v), k2) == pairs_value(ps, k2),
    decreases ps.len(),
{
    reveal_with_fuel(pairs_value, 3);
    if ps.len() == 0 {
        assert(seq![(k, v)][0] == (k, v));
        assert(seq![(k, v)].drop_first() =~= Seq::<(Seq<char>, Seq<char>)>::empty());
    } else if lex_lt(k, ps[0].0) {
        assert((seq![(k, v)] + ps)[0] == (k, v));
        assert((seq![(k, v)] + ps).drop_first() =~= ps);
    } else if k == ps[0].0 {
        assert((seq![(k, v)] + ps.drop_first())[0] == (k, v));
        assert((seq![(k, v)] + ps.drop_first()).drop_first() =~= ps.drop_first());
    } else {
        lemma_insert_keeps_others(ps.drop_first(), k, v, k2);
        assert((seq![ps[0]] + spec_insert(ps.drop_first(), k, v))[0] == ps[0]);
        assert((seq![ps[0]] + spec_insert(ps.drop_first(), k, v)).drop_first() =~= spec_insert(
            ps.drop_first(),
            k,
            v,
        ));
    }
}

/// Every key of an insertion result is the inserted key or a key of the
/// original sequence.
proof fn lemma_spec_insert_keys(
    ps: Seq<(Seq<char>, Seq<char>)>,
    k: Seq<char>,
    v: Seq<char>,
    idx: int,
)
    requires
        0 <= idx < spec_insert(ps, k, v).len(),
    ensures
        spec_insert(ps, k, v)[idx].0 == k || exists|j: int|
            0 <= j < ps.len() && (#[trigger] ps[j].0) == spec_insert(ps, k, v)[idx].0,
    decreases ps.len(),
{
    if ps.len() == 0 {
    } else if lex_lt(k, ps[0].0) {
        if idx > 0 {
            assert(ps[idx - 1].0 == spec_insert(ps, k, v)[idx].0);
        }
    } else if k == ps[0].0 {
        if idx > 0 {
            assert(ps[idx].0 == spec_insert(ps, k, v)[idx].0);
        }
    } else {
        if idx > 0 {
            lemma_spec_insert_keys(ps.drop_first(), k, v, idx - 1);
            let tail = ps.drop_first();
            let r = spec_insert(ps, k, v);
            assert(r[idx] == spec_insert(tail, k, v)[idx - 1]);
            if spec_insert(tail, k, v)[idx - 1].0 != k {
                let j = choose|j: int|
                    0 <= j < tail.len() && (#[trigger] tail[j].0) == spec_insert(tail, k, v)[idx
                        - 1].0;
                assert(ps[j + 1].0 == r[idx].0);
            }
        }
    }
}

/// Insertion into a key-ordered sequence keeps the keys strictly
/// ascending.
pub proof fn lemma_spec_insert_sorted(ps: Seq<(Seq<char>, Seq<char>)>, k: Seq<char>, v: Seq<char>)
    requires
        sorted_strict(ps),
    ensures
        sorted_strict(spec_insert(ps, k, v)),
    decreases ps.len(),
{
    let r = spec_insert(ps, k, v);
    if ps.len() == 0 {
    } else if lex_lt(k, ps[0].0) {
        assert forall|i: int, j: int| 0 <= i < j < r.len() implies #[trigger] lex_lt(
            r[i].0,
            r[j].0,
        ) by {
            if i == 0 {
                if j > 1 {
                    lemma_lex_trans(k, ps[0].0, ps[j - 1].0);
                }
            } else {
                assert(r[i] == ps[i - 1]);
                assert(r[j] == ps[j - 1]);
            }
        }
    } else if k == ps[0].0 {
        assert forall|i: int, j: int| 0 <= i < j < r.len() implies #[trigger] lex_lt(
            r[i].0,
            r[j].0,
        ) by {
            assert(r[i].0 == ps[i].0);
            assert(r[j].0 == ps[j].0);
        }
    } else {
        let tail = ps.drop_first();
        assert(forall|i: int, j: int|
            0 <= i < j < tail.len() ==> #[trigger] lex_lt(tail[i].0, tail[j].0)) by {
            assert forall|i: int, j: int| 0 <= i < j < tail.len() implies #[trigger] lex_lt(
                tail[i].0,
                tail[j].0,
            ) by {
                assert(tail[i] == ps[i + 1]);
                assert(tail[j] == ps[j + 1]);
                assert(lex_lt(ps[i + 1].0, ps[j + 1].0));
            }
        }
        lemma_spec_insert_sorted(tail, k, v);
        lemma_lex_total(k, ps[0].0);
        assert(lex_lt(ps[0].0, k));
        assert forall|i: int, j: int| 0 <= i < j < r.len() implies #[trigger] lex_lt(
            r[i].0,
            r[j].0,
        ) by {
            if i == 0 {
                assert(r[j] == spec_insert(tail, k, v)[j - 1]);
                lemma_spec_insert_keys(tail, k, v, j - 1);
                if r[j].0 == k {
                    assert(lex_lt(ps[0].0, r[j].0));
                } else {
                    let m = choose|m: int|
                        0 <= m < tail.len() && (#[trigger] tail[m].0) == r[j].0;
                    assert(tail[m] == ps[m + 1]);
                    assert(lex_lt(ps[0].0, ps[m + 1].0));
                }
            } else {
                assert(r[i] == spec_insert(tail, k, v)[i - 1]);
                assert(r[j] == spec_insert(tail, k, v)[j - 1]);
            }
        }
    }
}

/// Inserting under one key twice: the later value wins and the earlier
/// insertion leaves no trace.
pub proof fn lemma_insert_same_key(
    ps: Seq<(Seq<char>, Seq<char>)>,
    k: Seq<char>,
    v1: Seq<char>,
    v2: Seq<char>,
)
    ensures
        spec_insert(spec_insert(ps, k, v1), k, v2) == spec_insert(ps, k, v2),
    decreases ps.len(),
{
    lemma_lex_irrefl(k);
    if ps.len() == 0 {
        assert(spec_insert(spec_insert(ps, k, v1), k, v2) =~= spec_insert(ps, k, v2));
    } else if lex_lt(k, ps[0].0) {
        let r1 = seq![(k, v1)] + ps;
        assert(r1[0] == (k, v1));
        assert(spec_insert(r1, k, v2) =~= seq![(k, v2)] + r1.drop_first());
        assert(r1.drop_first() =~= ps);
    } else if k == ps[0].0 {
        let r1 = seq![(k, v1)] + ps.drop_first();
        assert(r1[0] == (k, v1));
        assert(spec_insert(r1, k, v2) =~= seq![(k, v2)] + r1.drop_first());
        assert(r1.drop_first() =~= ps.drop_first());
    } else {
        let tail = ps.drop_first();
        lemma_insert_same_key(tail, k, v1, v2);
        let r1 = seq![ps[0]] + spec_insert(tail, k, v1);
        assert(r1[0] == ps[0]);
        assert(r1.drop_first() =~= spec_insert(tail, k, v1));
        assert(spec_insert(r1, k, v2) =~= seq![ps[0]] + spec_insert(spec_insert(tail, k, v1), k, v2));
        assert(spec_insert(ps, k, v2) =~= seq![ps[0]] + spec_insert(tail, k, v2));
    }
}

/// Insertions under two different keys commute: the discovery order of
/// distinct properties does not affect the record.
pub proof fn lemma_insert_commute(
    ps: Seq<(Seq<char>, Seq<char>)>,
    k1: Seq<char>,
    v1: Seq<char>,
    k2: Seq<char>,
    v2: Seq<char>,
)
    requires
        k1 != k2,
    ensures
        spec_insert(spec_insert(ps, k1, v1), k2, v2) == spec_insert(spec_insert(ps, k2, v2), k1, v1),
    decreases ps.len(),
{
    lemma_lex_total(k1, k2);
    lemma_lex_asym(k1, k2);
    lemma_lex_irrefl(k1);
    lemma_lex_irrefl(k2);
    if ps.len() == 0 {
        let s1 = seq![(k1, v1)];
        let s2 = seq![(k2, v2)];
        assert(s1[0] == (k1, v1));
        assert(s2[0] == (k2, v2));
        assert(s1.drop_first().len() == 0);
        assert(s2.drop_first().len() == 0);
        assert(spec_insert(s1.drop_first(), k2, v2) =~= s2);
        assert(spec_insert(s2.drop_first(), k1, v1) =~= s1);
        if lex_lt(k1, k2) {
            assert(spec_insert(s1, k2, v2) =~= seq![(k1, v1), (k2, v2)]);
            assert(spec_insert(s2, k1, v1) =~= seq![(k1, v1), (k2, v2)]);
        } else {
            assert(spec_insert(s1, k2, v2) =~= seq![(k2, v2), (k1, v1)]);
            assert(spec_insert(s2, k1, v1) =~= seq![(k2, v2), (k1, v1)]);
        }
    } else {
        let h = ps[0];
        let tail = ps.drop_first();
        lemma_lex_total(k1, h.0);
        lemma_lex_asym(k1, h.0);
        lemma_lex_total(k2, h.0);
        lemma_lex_asym(k2, h.0);
        lemma_lex_irrefl(h.0);
        if lex_lt(k1, h.0) || k1 == h.0 {
            if lex_lt(k2, h.0) || k2 == h.0 {
                lemma_insert_one_way(ps, k1, v1, k2, v2);
                lemma_insert_one_way(ps, k2, v2, k1, v1);
            } else {
                lemma_insert_cross(ps, k1, v1, k2, v2);
            }
        } else {
            if lex_lt(k2, h.0) || k2 == h.0 {
                lemma_insert_cross(ps, k2, v2, k1, v1);
            } else {
                lemma_insert_commute(tail, k1, v1, k2, v2);
                assert((seq![h] + spec_insert(tail, k1, v1)).drop_first() =~= spec_insert(
                    tail,
                    k1,
                    v1,
                ));
                assert((seq![h] + spec_insert(tail, k2, v2)).drop_first() =~= spec_insert(
                    tail,
                    k2,
                    v2,
                ));
                assert(spec_insert(spec_insert(ps, k1, v1), k2, v2) =~= seq![h] + spec_insert(
                    spec_insert(tail, k1, v1),
                    k2,
                    v2,
                ));
                assert(spec_insert(spec_insert(ps, k2, v2), k1, v1) =~= seq![h] + spec_insert(
                    spec_insert(tail, k2, v2),
                    k1,
                    v1,
                ));
            }
        }
    }
}

/// Both keys land at or before the head: the double insertion has the same
/// small normal form either way.
proof fn lemma_insert_one_way(
    ps: Seq<(Seq<char>, Seq<char>)>,
    ka: Seq<char>,
    va: Seq<char>,
    kb: Seq<char>,
    vb: Seq<char>,
)
    requires
        ka != kb,
        ps.len() > 0,
        lex_lt(ka, ps[0].0) || ka == ps[0].0,
        lex_lt(kb, ps[0].0) || kb == ps[0].0,
    ensures
        spec_insert(spec_insert(ps, ka, va), kb, vb) == normal_two(ps, ka, va, kb, vb),
{
    let h = ps[0];
    lemma_lex_total(ka, kb);
    lemma_lex_asym(ka, kb);
    lemma_lex_irrefl(ka);
    lemma_lex_irrefl(kb);
    lemma_lex_asym(ka, h.0);
    lemma_lex_asym(kb, h.0);
    if lex_lt(ka, h.0) {
        let r1 = seq![(ka, va)] + ps;
        assert(r1[0] == (ka, va));
        assert(r1.drop_first() =~= ps);
        if lex_lt(kb, ka) {
            assert(spec_insert(r1, kb, vb) =~= seq![(kb, vb)] + r1);
        } else {
            assert(lex_lt(ka, kb));
            assert(spec_insert(r1, kb, vb) =~= seq![(ka, va)] + spec_insert(ps, kb, vb));
        }
    } else {
        let r1 = seq![(ka, va)] + ps.drop_first();
        assert(ka == h.0);
        assert(r1[0] == (ka, va));
        assert(r1.drop_first() =~= ps.drop_first());
        if lex_lt(kb, ka) {
            assert(spec_insert(r1, kb, vb) =~= seq![(kb, vb)] + r1);
        } else {
            assert(lex_lt(ka, kb));
            assert(spec_insert(r1, kb, vb) =~= seq![(ka, va)] + spec_insert(ps.drop_first(), kb, vb));
            assert(spec_insert(ps, kb, vb) =~= seq![h] + spec_insert(ps.drop_first(), kb, vb));
            assert(spec_insert(ps, kb, vb).drop_first() =~= spec_insert(ps.drop_first(), kb, vb));
        }
    }
}

/// The normal form of inserting two distinct keys that both order at or
/// before the head of a non-empty sequence.
spec fn normal_two(
    ps: Seq<(Seq<char>, Seq<char>)>,
    ka: Seq<char>,
    va: Seq<char>,
    kb: Seq<char>,
    vb: Seq<char>,
) -> Seq<(Seq<char>, Seq<char>)>
    recommends
        ps.len() > 0,
{
    let rest = if ka == ps[0].0 { ps.drop_first() } else { ps };
    if lex_lt(kb, ka) {
        seq![(kb, vb)] + (seq![(ka, va)] + rest)
    } else {
        seq![(ka, va)] + spec_insert(rest, kb, vb)
    }
}

/// One key lands at or before the head, the other past it: the double
/// insertion is the same either way round.
proof fn lemma_insert_cross(
    ps: Seq<(Seq<char>, Seq<char>)>,
    ka: Seq<char>,
    va: Seq<char>,
    kb: Seq<char>,
    vb: Seq<char>,
)
    requires
        ka != kb,
        ps.len() > 0,
        lex_lt(ka, ps[0].0) || ka == ps[0].0,
        !(lex_lt(kb, ps[0].0) || kb == ps[0].0),
    ensures
        spec_insert(spec_insert(ps, ka, va), kb, vb) == spec_insert(spec_insert(ps, kb, vb), ka, va),
{
    let h = ps[0];
    let tail = ps.drop_first();
    lemma_lex_total(kb, h.0);
    lemma_lex_asym(ka, h.0);
    lemma_lex_irrefl(ka);
    lemma_lex_irrefl(kb);
    assert(lex_lt(h.0, kb));
    lemma_lex_asym(ka, kb);
    lemma_lex_asym(kb, ka);
    if lex_lt(ka, h.0) {
        lemma_lex_trans(ka, h.0, kb);
        lemma_lex_asym(ka, kb);
        let r1 = seq![(ka, va)] + ps;
        assert(r1[0] == (ka, va));
        assert(r1.drop_first() =~= ps);
        assert(spec_insert(r1, kb, vb) =~= seq![(ka, va)] + spec_insert(ps, kb, vb));
        let r2 = spec_insert(ps, kb, vb);
        assert(r2 =~= seq![h] + spec_insert(tail, kb, vb));
        assert(r2[0] == h);
        assert(spec_insert(r2, ka, va) =~= seq![(ka, va)] + r2);
    } else {
        assert(ka == h.0);
        let r1 = seq![(ka, va)] + tail;
        assert(r1[0] == (ka, va));
        assert(r1.drop_first() =~= tail);
        assert(spec_insert(r1, kb, vb) =~= seq![(ka, va)] + spec_insert(tail, kb, vb));
        let r2 = spec_insert(ps, kb, vb);
        assert(r2 =~= seq![h] + spec_insert(tail, kb, vb));
        assert(r2[0] == h);
        assert(r2.drop_first() =~= spec_insert(tail, kb, vb));
        assert(spec_insert(r2, ka, va) =~= seq![(ka, va)] + spec_insert(tail, kb, vb));
    }
}

/// Character-for-character equality of two vectors.
pub fn chars_eq(a: &Vec<char>, b: &Vec<char>) -> (r: bool)
    ensures
        r == (a@ == b@),
{
    if a.len() != b.len() {
        return false;
    }
    let mut i: usize = 0;
    while i < a.len()
        invariant
            a@.len() == b@.len(),
            i <= a@.len(),
            forall|k: int| 0 <= k < i ==> a@[k] == b@[k],
        decreases a@.len() - i,
    {
        if a[i] != b[i] {
            return false;
        }
        i = i + 1;
    }
    proof {
        assert(a@ =~= b@);
    }
    true
}

} // verus!
