//! The ordered dictionary of the value model: an association list that
//! preserves insertion order, with one canonicalization step that sorts the
//! entries by key.

use vstd::prelude::*;
use vstd::seq_lib::group_to_multiset_ensures;

use crate::bencode::model::SpecValue;
use crate::bencode::repr::Value;

verus! {

/// Byte-wise lexicographic order on byte sequences, the order canonical
/// bencoding sorts dictionary keys by.
pub open spec fn lex_le(a: Seq<u8>, b: Seq<u8>) -> bool
    decreases a.len(),
{
    if a.len() == 0 {
        true
    } else if b.len() == 0 {
        false
    } else if a[0] < b[0] {
        true
    } else if a[0] > b[0] {
        false
    } else {
        lex_le(a.drop_first(), b.drop_first())
    }
}

/// The entries stand in non-decreasing key order.
pub open spec fn sorted_by_keys(ps: Seq<(Seq<u8>, SpecValue)>) -> bool {
    forall|i: int, j: int| 0 <= i < j < ps.len() ==> lex_le(#[trigger] ps[i].0, #[trigger] ps[j].0)
}

/// No two entries share a key.
pub open spec fn distinct_keys(ps: Seq<(Seq<u8>, SpecValue)>) -> bool {
    forall|i: int, j: int|
        0 <= i < j < ps.len() ==> (#[trigger] ps[i].0) != (#[trigger] ps[j].0)
}

/// An association from byte keys to values that keeps the order entries
/// were inserted in. `canonicalize` (`ensure_order`) sorts by key; nothing
/// deduplicates.
#[derive(Debug, PartialEq, Eq)]
pub struct OrderedMap {
    pub(crate) entries: Vec<(Vec<u8>, Value)>,
}

/// Abstract pair sequence of a vector of entries.
pub open spec fn view_pairs(es: Seq<(Vec<u8>, Value)>) -> Seq<(Seq<u8>, SpecValue)>
    decreases es,
{
    if es.len() == 0 {
        Seq::empty()
    } else {
        seq![(es[0].0@, es[0].1@)] + view_pairs(es.drop_first())
    }
}

pub broadcast proof fn lemma_view_pairs(es: Seq<(Vec<u8>, Value)>)
    ensures
        (#[trigger] view_pairs(es)).len() == es.len(),
        forall|i: int|
            0 <= i < es.len() ==> view_pairs(es)[i] == (es[i].0@, es[i].1@),
    decreases es,
{
    if es.len() > 0 {
        lemma_view_pairs(es.drop_first());
        assert(view_pairs(es) == seq![(es[0].0@, es[0].1@)] + view_pairs(es.drop_first()));
        assert forall|i: int|
            0 <= i < es.len() implies view_pairs(es)[i] == (es[i].0@, es[i].1@) by {
            if i > 0 {
                assert(view_pairs(es)[i] == view_pairs(es.drop_first())[i - 1]);
                assert(es.drop_first()[i - 1] == es[i]);
            }
        }
    }
}

impl View for OrderedMap {
    type V = Seq<(Seq<u8>, SpecValue)>;

    closed spec fn view(&self) -> Seq<(Seq<u8>, SpecValue)>
        decreases self,
    {
        view_pairs(self.entries@)
    }
}

/// Inside the crate the map's abstraction is its entry vector's pair view.
pub(crate) proof fn lemma_map_view(m: OrderedMap)
    ensures
        m@ == view_pairs(m.entries@),
{
}

impl OrderedMap {
    /// An empty map.
    pub fn new() -> (r: Self)
        ensures
            r@ == Seq::<(Seq<u8>, SpecValue)>::empty(),
    {
        Self { entries: Vec::new() }
    }

    /// A map that adopts a prebuilt entry vector as it stands.
    pub fn from_raw(entries: Vec<(Vec<u8>, Value)>) -> (r: Self)
        ensures
            r@ == view_pairs(entries@),
    {
        Self { entries }
    }

    /// An empty map with room for `capacity` entries.
    pub fn with_capacity(capacity: usize) -> (r: Self)
        ensures
            r@ == Seq::<(Seq<u8>, SpecValue)>::empty(),
    {
        Self { entries: Vec::with_capacity(capacity) }
    }

    /// How many entries the map holds, duplicates counted.
    pub fn len(&self) -> (r: usize)
        ensures
            r == self@.len(),
    {
        proof {
            lemma_view_pairs(self.entries@);
        }
        self.entries.len()
    }

    /// Appends an entry; an existing entry under the same key stays.
    pub fn insert(&mut self, key: Vec<u8>, value: Value)
        ensures
            final(self)@ == old(self)@ + seq![(key@, value@)],
    {
        self.entries.push((key, value));
        proof {
            lemma_view_pairs(old(self).entries@);
            lemma_view_pairs(self.entries@);
            assert(self@ =~= old(self)@ + seq![(key@, value@)]);
        }
    }

    /// Borrows the entry at `i` in the current order.
    pub fn entry_at(&self, i: usize) -> (r: &(Vec<u8>, Value))
        requires
            i < self@.len(),
        ensures
            (r.0@, r.1@) == self@[i as int],
    {
        proof {
            lemma_view_pairs(self.entries@);
        }
        &self.entries[i]
    }
}

/// The lexicographic order relates every two keys, both ways only for
/// equal keys, and transitively.
pub proof fn lemma_lex_le_total(a: Seq<u8>, b: Seq<u8>)
    ensures
        lex_le(a, b) || lex_le(b, a),
        lex_le(a, b) && lex_le(b, a) ==> a == b,
    decreases a.len(),
{
    if a.len() > 0 && b.len() > 0 && a[0] == b[0] {
        lemma_lex_le_total(a.drop_first(), b.drop_first());
        if lex_le(a, b) && lex_le(b, a) {
            assert(a.drop_first() == b.drop_first());
            assert forall|i: int| 0 <= i < a.len() implies a[i] == b[i] by {
                if i >= 1 {
                    assert(a[i] == a.drop_first()[i - 1]);
                    assert(b[i] == b.drop_first()[i - 1]);
                }
            }
            assert(a =~= b);
        }
    }
}

/// The lexicographic order chains.
pub proof fn lemma_lex_le_trans(a: Seq<u8>, b: Seq<u8>, c: Seq<u8>)
    requires
        lex_le(a, b),
        lex_le(b, c),
    ensures
        lex_le(a, c),
    decreases a.len(),
{
    if a.len() > 0 && b.len() > 0 && c.len() > 0 && a[0] == b[0] && b[0] == c[0] {
        lemma_lex_le_trans(a.drop_first(), b.drop_first(), c.drop_first());
    }
}

/// Byte-wise comparison of two keys.
fn lex_le_bytes(a: &Vec<u8>, b: &Vec<u8>) -> (r: bool)
    ensures
        r == lex_le(a@, b@),
{
    let mut j: usize = 0;
    proof {
        assert(a@.skip(0) =~= a@);
        assert(b@.skip(0) =~= b@);
    }
    loop
        invariant
            j <= a@.len(),
            j <= b@.len(),
            lex_le(a@, b@) == lex_le(a@.skip(j as int), b@.skip(j as int)),
        decreases a@.len() - j,
    {
        if j == a.len() {
            proof {
                assert(a@.skip(j as int) =~= Seq::<u8>::empty());
            }
            return true;
        }
        if j == b.len() {
            proof {
                assert(b@.skip(j as int) =~= Seq::<u8>::empty());
                assert(a@.skip(j as int).len() > 0);
            }
            return false;
        }
        let x = a[j];
        let y = b[j];
        proof {
            assert(a@.skip(j as int)[0] == x);
            assert(b@.skip(j as int)[0] == y);
        }
        if x < y {
            return true;
        }
        if x > y {
            return false;
        }
        proof {
            assert(a@.skip(j as int).drop_first() =~= a@.skip(j as int + 1));
            assert(b@.skip(j as int).drop_first() =~= b@.skip(j as int + 1));
        }
        j = j + 1;
    }
}

/// Inserting at the found slot keeps a sorted sequence sorted.
proof fn lemma_sorted_insert(s: Seq<(Seq<u8>, SpecValue)>, pos: int, p: (Seq<u8>, SpecValue))
    requires
        sorted_by_keys(s),
        0 <= pos <= s.len(),
        forall|m: int| 0 <= m < pos ==> lex_le(#[trigger] s[m].0, p.0),
        pos < s.len() ==> lex_le(p.0, s[pos].0),
    ensures
        sorted_by_keys(s.insert(pos, p)),
{
    let t = s.insert(pos, p);
    assert forall|i: int, j: int|
        0 <= i < j < t.len() implies lex_le(#[trigger] t[i].0, #[trigger] t[j].0) by {
        if i < pos && j == pos {
        } else if i == pos && j > pos {
            assert(t[j] == s[j - 1]);
            if pos < j - 1 {
                assert(lex_le(s[pos].0, s[j - 1].0));
                lemma_lex_le_trans(p.0, s[pos].0, s[j - 1].0);
            }
        } else if i < pos && j > pos {
            assert(t[i] == s[i] && t[j] == s[j - 1]);
            if i < j - 1 {
                assert(lex_le(s[i].0, s[j - 1].0));
            }
        } else if i > pos && j > pos {
            assert(t[i] == s[i - 1] && t[j] == s[j - 1]);
            assert(lex_le(s[i - 1].0, s[j - 1].0));
        } else if i < pos && j < pos {
            assert(t[i] == s[i] && t[j] == s[j]);
        }
    }
}

impl OrderedMap {
    /// Sorts the entries by key, byte-wise lexicographically: the
    /// canonicalize step of the wire format. The entries themselves are
    /// kept, order aside.
    #[verifier::loop_isolation(false)]
    pub fn ensure_order(&mut self)
        ensures
            final(self)@.to_multiset() == old(self)@.to_multiset(),
            sorted_by_keys(final(self)@),
    {
        proof {
            broadcast use group_to_multiset_ensures;

            lemma_view_pairs(self.entries@);
        }
        let ghost orig = self@;
        let mut out: Vec<(Vec<u8>, Value)> = Vec::new();
        proof {
            assert(view_pairs(out@) =~= Seq::<(Seq<u8>, SpecValue)>::empty());
        }
        while self.entries.len() > 0
            invariant
                view_pairs(out@).to_multiset().add(view_pairs(self.entries@).to_multiset())
                    == orig.to_multiset(),
                sorted_by_keys(view_pairs(out@)),
            decreases self.entries@.len(),
        {
            let ghost pre_pop = self.entries@;
            let e = match self.entries.pop() {
                Some(e) => e,
                None => unreached(),
            };
            proof {
                lemma_view_pairs(pre_pop);
                lemma_view_pairs(self.entries@);
                assert(view_pairs(pre_pop) =~= view_pairs(self.entries@).push((e.0@, e.1@)));
            }
            let mut pos: usize = 0;
            while pos < out.len() && lex_le_bytes(&out[pos].0, &e.0)
                invariant
                    pos <= out@.len(),
                    forall|m: int|
                        0 <= m < pos ==> lex_le(#[trigger] view_pairs(out@)[m].0, e.0@),
                decreases out@.len() - pos,
            {
                proof {
                    lemma_view_pairs(out@);
                }
                pos = pos + 1;
            }
            let ghost pre_ins = out@;
            let ghost eg = (e.0@, e.1@);
            proof {
                lemma_view_pairs(pre_ins);
                if pos < pre_ins.len() {
                    lemma_lex_le_total(pre_ins[pos as int].0@, e.0@);
                }
                lemma_sorted_insert(view_pairs(pre_ins), pos as int, eg);
            }
            out.insert(pos, e);
            proof {
                lemma_view_pairs(out@);
                assert(view_pairs(out@) =~= view_pairs(pre_ins).insert(pos as int, eg));
            }
        }
        self.entries = out;
        proof {
            assert(view_pairs(self.entries@).to_multiset() =~= orig.to_multiset()) by {
                assert(view_pairs(Seq::<(Vec<u8>, Value)>::empty())
                    =~= Seq::<(Seq<u8>, SpecValue)>::empty());
            }
        }
    }
}

} // verus!
