//! The in-memory representations of a bencoded document: the `Value` tree,
//! the flat `Element` stream, and the parser's error type.

use vstd::prelude::*;

use crate::bencode::dict::{lemma_map_view, lemma_view_pairs, view_pairs, OrderedMap};
use crate::bencode::model::{
    elems_of, elems_of_pairs, elems_of_seq, lemma_elems_pairs_snoc, lemma_elems_pairs_step,
    lemma_elems_seq_snoc, lemma_elems_seq_step, SpecElem, SpecValue,
};
use vstd::pervasive::unreached;
use vstd::slice::slice_to_vec;

verus! {

/// A bencoded value: a byte string, a signed 64-bit integer, a list, or an
/// ordered dictionary with byte-string keys.
#[derive(Debug, PartialEq, Eq)]
pub enum Value {
    Bytes(Vec<u8>),
    Int(i64),
    List(Vec<Value>),
    Dict(OrderedMap),
}

/// Abstract value sequence of a vector of values.
pub open spec fn view_values(vs: Seq<Value>) -> Seq<SpecValue>
    decreases vs,
{
    if vs.len() == 0 {
        Seq::empty()
    } else {
        seq![vs[0]@] + view_values(vs.drop_first())
    }
}

pub broadcast proof fn lemma_view_values(vs: Seq<Value>)
    ensures
        (#[trigger] view_values(vs)).len() == vs.len(),
        forall|i: int| 0 <= i < vs.len() ==> view_values(vs)[i] == vs[i]@,
    decreases vs,
{
    if vs.len() > 0 {
        lemma_view_values(vs.drop_first());
        assert(view_values(vs) == seq![vs[0]@] + view_values(vs.drop_first()));
        assert forall|i: int| 0 <= i < vs.len() implies view_values(vs)[i] == vs[i]@ by {
            if i > 0 {
                assert(view_values(vs)[i] == view_values(vs.drop_first())[i - 1]);
                assert(vs.drop_first()[i - 1] == vs[i]);
            }
        }
    }
}

impl View for Value {
    type V = SpecValue;

    open spec fn view(&self) -> SpecValue
        decreases self,
    {
        match self {
            Value::Bytes(b) => SpecValue::Bytes(b@),
            Value::Int(i) => SpecValue::Int(*i),
            Value::List(vs) => SpecValue::List(view_values(vs@)),
            Value::Dict(m) => SpecValue::Dict(m@),
        }
    }
}

/// One token of the flat, depth-first linearization of a value: container
/// tokens carry the number of their immediate child values, end markers are
/// implicit.
#[derive(Debug, Clone, PartialEq, Eq)]
pub enum Element {
    DictBegin(usize),
    ListBegin(usize),
    Int(i64),
    Bytes(Vec<u8>),
}

impl View for Element {
    type V = SpecElem;

    open spec fn view(&self) -> SpecElem {
        match self {
            Element::DictBegin(n) => SpecElem::DictBegin(*n as int),
            Element::ListBegin(n) => SpecElem::ListBegin(*n as int),
            Element::Int(i) => SpecElem::Int(*i),
            Element::Bytes(b) => SpecElem::Bytes(b@),
        }
    }
}

/// Abstract token sequence of a vector of elements.
pub open spec fn view_elems(es: Seq<Element>) -> Seq<SpecElem>
    decreases es,
{
    if es.len() == 0 {
        Seq::empty()
    } else {
        seq![es[0]@] + view_elems(es.drop_first())
    }
}

pub broadcast proof fn lemma_view_elems(es: Seq<Element>)
    ensures
        (#[trigger] view_elems(es)).len() == es.len(),
        forall|i: int| 0 <= i < es.len() ==> view_elems(es)[i] == es[i]@,
    decreases es,
{
    if es.len() > 0 {
        lemma_view_elems(es.drop_first());
        assert(view_elems(es) == seq![es[0]@] + view_elems(es.drop_first()));
        assert forall|i: int| 0 <= i < es.len() implies view_elems(es)[i] == es[i]@ by {
            if i > 0 {
                assert(view_elems(es)[i] == view_elems(es.drop_first())[i - 1]);
                assert(es.drop_first()[i - 1] == es[i]);
            }
        }
    }
}

/// Token views concatenate along vector concatenation.
pub proof fn lemma_view_elems_concat(a: Seq<Element>, b: Seq<Element>)
    ensures
        view_elems(a + b) == view_elems(a) + view_elems(b),
    decreases a,
{
    if a.len() == 0 {
        assert(a + b =~= b);
        assert(view_elems(a) =~= Seq::<SpecElem>::empty());
        assert(view_elems(a) + view_elems(b) =~= view_elems(b));
    } else {
        lemma_view_elems_concat(a.drop_first(), b);
        assert((a + b).drop_first() =~= a.drop_first() + b);
        assert((a + b)[0] == a[0]);
        assert(view_elems(a + b) == seq![a[0]@] + (view_elems(a.drop_first()) + view_elems(b)));
        assert(view_elems(a + b) =~= view_elems(a) + view_elems(b));
    }
}

/// Pushing one element appends its view.
pub proof fn lemma_view_elems_push(a: Seq<Element>, e: Element)
    ensures
        view_elems(a.push(e)) == view_elems(a) + seq![e@],
{
    assert(a.push(e) =~= a + seq![e]);
    lemma_view_elems_concat(a, seq![e]);
    assert(view_elems(seq![e]) == seq![e@] + view_elems(seq![e].drop_first()));
    assert(seq![e].drop_first() =~= Seq::<Element>::empty());
    assert(view_elems(seq![e]) =~= seq![e@]);
}

/// Updating one element updates its view in place.
pub proof fn lemma_view_elems_update(a: Seq<Element>, i: int, e: Element)
    requires
        0 <= i < a.len(),
    ensures
        view_elems(a.update(i, e)) == view_elems(a).update(i, e@),
{
    lemma_view_elems(a);
    lemma_view_elems(a.update(i, e));
    assert(view_elems(a.update(i, e)) =~= view_elems(a).update(i, e@));
}

/// A well-formed pre-order token stream of exactly one value.
#[derive(Debug, Clone, PartialEq, Eq)]
pub struct Elements {
    elements: Vec<Element>,
}

impl View for Elements {
    type V = Seq<SpecElem>;

    closed spec fn view(&self) -> Seq<SpecElem> {
        view_elems(self.elements@)
    }
}

impl Elements {
    /// The stream is the linearization of some value.
    pub open spec fn wf(self) -> bool {
        exists|v: SpecValue| self@ == elems_of(v)
    }

    /// Wraps a prebuilt token vector. The parser only ever builds
    /// well-formed streams; a caller that assembles one by hand answers for
    /// its shape itself.
    pub fn from_parts(elements: Vec<Element>) -> (r: Self)
        ensures
            r@ == view_elems(elements@),
    {
        Self { elements }
    }

    /// How many tokens the stream holds.
    pub fn len(&self) -> (r: usize)
        ensures
            r == self@.len(),
    {
        proof {
            lemma_view_elems(self.elements@);
        }
        self.elements.len()
    }

    /// Borrows the whole token vector, for the crate's own walkers.
    pub(crate) fn tokens(&self) -> (r: &Vec<Element>)
        ensures
            view_elems(r@) == self@,
    {
        &self.elements
    }

    /// Borrows the token at `i`.
    pub fn token_at(&self, i: usize) -> (r: &Element)
        requires
            i < self@.len(),
        ensures
            r@ == self@[i as int],
    {
        proof {
            lemma_view_elems(self.elements@);
        }
        &self.elements[i]
    }
}

/// What the parser reports: input ended inside the named construct, a
/// required byte never came, an integer body broke the canonical-decimal
/// rules, or bytes were left over after the top-level value.
#[derive(Debug, PartialEq, Eq)]
pub enum Error {
    UnexpectedEnd(String),
    ExpectedByte(u8),
    InvalidInt(Vec<u8>),
    Trailing,
}

/// Appends the pre-order token stream of `v` to `out`.
#[verifier::loop_isolation(false)]
fn push_elements(v: &Value, out: &mut Vec<Element>)
    ensures
        view_elems(final(out)@) == view_elems(old(out)@) + elems_of(v@),
    decreases v,
{
    let ghost view0 = view_elems(old(out)@);
    match v {
        Value::Bytes(b) => {
            let el = Element::Bytes(slice_to_vec(b.as_slice()));
            let ghost eg = el;
            out.push(el);
            proof {
                lemma_view_elems_push(old(out)@, eg);
                assert(v@ == SpecValue::Bytes(b@));
                assert(eg@ == SpecElem::Bytes(b@));
                assert(view_elems(out@) =~= view0 + elems_of(v@));
            }
        },
        Value::Int(i) => {
            let ghost eg = Element::Int(*i);
            out.push(Element::Int(*i));
            proof {
                lemma_view_elems_push(old(out)@, eg);
                assert(v@ == SpecValue::Int(*i));
                assert(view_elems(out@) =~= view0 + elems_of(v@));
            }
        },
        Value::List(vs) => {
            let ghost views = view_values(vs@);
            proof {
                lemma_view_values(vs@);
            }
            let n = vs.len();
            let ghost hdr = Element::ListBegin(n);
            out.push(Element::ListBegin(n));
            proof {
                lemma_view_elems_push(old(out)@, hdr);
            }
            let mut k: usize = 0;
            while k < n
                invariant
                    k <= n,
                    n == vs.len(),
                    views == view_values(vs@),
                    views.len() == n,
                    forall|j: int| 0 <= j < n ==> views[j] == vs@[j]@,
                    view_elems(out@) == view0 + seq![SpecElem::ListBegin(n as int)]
                        + elems_of_seq(views.take(k as int)),
                decreases n - k,
            {
                let ghost before = out@;
                proof {
                    assert(decreases_to!(*v => *vs));
                    assert(decreases_to!(*vs => vs@[k as int]));
                }
                push_elements(&vs[k], out);
                proof {
                    lemma_elems_seq_snoc(views.take(k as int), views[k as int]);
                    assert(views.take(k as int).push(views[k as int]) =~= views.take(
                        k as int + 1,
                    ));
                    assert(view_elems(out@) =~= view0 + seq![SpecElem::ListBegin(n as int)]
                        + elems_of_seq(views.take(k as int + 1)));
                }
                k = k + 1;
            }
            proof {
                assert(views.take(n as int) =~= views);
                assert(elems_of(v@) == seq![SpecElem::ListBegin(n as int)] + elems_of_seq(
                    views,
                ));
                assert(view_elems(out@) =~= view0 + elems_of(v@));
            }
        },
        Value::Dict(m) => {
            let ghost pairs = m@;
            proof {
                lemma_map_view(*m);
                lemma_view_pairs(m.entries@);
            }
            let n = m.entries.len();
            let ghost hdr = Element::DictBegin(n);
            out.push(Element::DictBegin(n));
            proof {
                lemma_view_elems_push(old(out)@, hdr);
            }
            let mut k: usize = 0;
            while k < n
                invariant
                    k <= n,
                    n == m.entries@.len(),
                    pairs == m@,
                    pairs.len() == n,
                    forall|j: int|
                        0 <= j < n ==> pairs[j] == (m.entries@[j].0@, m.entries@[j].1@),
                    view_elems(out@) == view0 + seq![SpecElem::DictBegin(n as int)]
                        + elems_of_pairs(pairs.take(k as int)),
                decreases n - k,
            {
                let entry = &m.entries[k];
                let ghost mid = out@;
                let kel = Element::Bytes(slice_to_vec(entry.0.as_slice()));
                let ghost kg = kel;
                out.push(kel);
                proof {
                    lemma_view_elems_push(mid, kg);
                    assert(kg@ == SpecElem::Bytes(pairs[k as int].0));
                    assert(entry.1@ == pairs[k as int].1);
                    assert(decreases_to!(*v => *m));
                    assert(decreases_to!(*m => m.entries));
                    assert(decreases_to!(m.entries => m.entries@[k as int]));
                    assert(decreases_to!(m.entries@[k as int] => m.entries@[k as int].1));
                }
                push_elements(&entry.1, out);
                proof {
                    lemma_elems_pairs_snoc(pairs.take(k as int), pairs[k as int]);
                    assert(pairs.take(k as int).push(pairs[k as int]) =~= pairs.take(
                        k as int + 1,
                    ));
                    assert(view_elems(out@) =~= view0 + seq![SpecElem::DictBegin(n as int)]
                        + elems_of_pairs(pairs.take(k as int + 1)));
                }
                k = k + 1;
            }
            proof {
                assert(pairs.take(n as int) =~= pairs);
                assert(elems_of(v@) == seq![SpecElem::DictBegin(n as int)] + elems_of_pairs(
                    pairs,
                ));
                assert(view_elems(out@) =~= view0 + elems_of(v@));
            }
        },
    }
}

impl Value {
    /// Flattens this value into its pre-order element stream.
    pub fn into_elements(self) -> (r: Elements)
        ensures
            r@ == elems_of(self@),
            r.wf(),
    {
        let mut out: Vec<Element> = Vec::new();
        proof {
            assert(view_elems(out@) =~= Seq::<SpecElem>::empty());
        }
        push_elements(&self, &mut out);
        let r = Elements::from_parts(out);
        proof {
            assert(r@ =~= elems_of(self@));
        }
        r
    }
}

/// Rebuilds the value whose stream stands at `*i`, advancing the cursor
/// past it.
#[verifier::loop_isolation(false)]
fn build_value(elements: &Vec<Element>, i: &mut usize, Ghost(v): Ghost<SpecValue>) -> (r: Value)
    requires
        *old(i) + elems_of(v).len() <= elements@.len(),
        view_elems(elements@).subrange(
            *old(i) as int,
            *old(i) + elems_of(v).len(),
        ) == elems_of(v),
    ensures
        r@ == v,
        *final(i) == *old(i) + elems_of(v).len(),
    decreases v,
{
    proof {
        lemma_view_elems(elements@);
        assert(vstd::std_specs::vec::spec_vec_len(elements) == elements@.len());
    }
    let ghost toks = view_elems(elements@);
    proof {
        lemma_elems_head(v);
        assert(toks[*old(i) as int] == elems_of(v)[0]);
        assert(elements@[*old(i) as int]@ == toks[*old(i) as int]);
    }
    match &elements[*i] {
        Element::Bytes(b) => {
            proof {
                assert(v == SpecValue::Bytes(b@));
            }
            let owned = slice_to_vec(b.as_slice());
            *i = *i + 1;
            Value::Bytes(owned)
        },
        Element::Int(n) => {
            proof {
                assert(v == SpecValue::Int(*n));
            }
            let owned = *n;
            *i = *i + 1;
            Value::Int(owned)
        },
        Element::ListBegin(ct) => {
            let ghost ws = v->List_0;
            proof {
                assert(v matches SpecValue::List(_));
                assert(*ct as int == ws.len());
            }
            let n = *ct;
            *i = *i + 1;
            let ghost iend = *old(i) + elems_of(v).len();
            proof {
                assert(v == SpecValue::List(ws));
                assert(elems_of(v) == seq![SpecElem::ListBegin(ws.len() as int)]
                    + elems_of_seq(ws));
                lemma_subrange_shift(
                    toks,
                    *old(i) as int,
                    iend as int,
                    seq![SpecElem::ListBegin(ws.len() as int)],
                    elems_of_seq(ws),
                );
                assert(ws.skip(0) =~= ws);
            }
            let mut list: Vec<Value> = Vec::new();
            let mut k: usize = 0;
            while k < n
                invariant
                    k <= n,
                    n as int == ws.len(),
                    list@.len() == k,
                    forall|j: int| 0 <= j < k ==> list@[j]@ == ws[j],
                    *i + elems_of_seq(ws.skip(k as int)).len() == iend,
                    iend <= elements@.len(),
                    toks.subrange(*i as int, iend as int) == elems_of_seq(ws.skip(k as int)),
                decreases n - k,
            {
                proof {
                    lemma_elems_seq_step(ws, k as int);
                    lemma_subrange_shift(
                        toks,
                        *i as int,
                        iend as int,
                        elems_of(ws[k as int]),
                        elems_of_seq(ws.skip(k as int + 1)),
                    );
                    assert(decreases_to!(v => ws));
                    assert(decreases_to!(ws => ws[k as int]));
                }
                let child = build_value(elements, i, Ghost(ws[k as int]));
                list.push(child);
                k = k + 1;
            }
            proof {
                lemma_view_values(list@);
                assert(ws.skip(n as int) =~= Seq::<SpecValue>::empty());
                assert(view_values(list@) =~= ws);
            }
            Value::List(list)
        },
        Element::DictBegin(ct) => {
            let ghost ps = v->Dict_0;
            proof {
                assert(v matches SpecValue::Dict(_));
                assert(*ct as int == ps.len());
            }
            let n = *ct;
            *i = *i + 1;
            let ghost iend = *old(i) + elems_of(v).len();
            proof {
                assert(v == SpecValue::Dict(ps));
                assert(elems_of(v) == seq![SpecElem::DictBegin(ps.len() as int)]
                    + elems_of_pairs(ps));
                lemma_subrange_shift(
                    toks,
                    *old(i) as int,
                    iend as int,
                    seq![SpecElem::DictBegin(ps.len() as int)],
                    elems_of_pairs(ps),
                );
                assert(ps.skip(0) =~= ps);
                assert(ps.take(0) =~= Seq::<(Seq<u8>, SpecValue)>::empty());
            }
            let mut map = OrderedMap::with_capacity(n);
            let mut k: usize = 0;
            while k < n
                invariant
                    k <= n,
                    n as int == ps.len(),
                    map@ == ps.take(k as int),
                    *i + elems_of_pairs(ps.skip(k as int)).len() == iend,
                    iend <= elements@.len(),
                    toks.subrange(*i as int, iend as int) == elems_of_pairs(ps.skip(k as int)),
                decreases n - k,
            {
                proof {
                    lemma_elems_pairs_step(ps, k as int);
                    assert(elems_of_pairs(ps.skip(k as int)) =~= seq![SpecElem::Bytes(
                        ps[k as int].0,
                    )] + (elems_of(ps[k as int].1) + elems_of_pairs(ps.skip(k as int + 1))));
                    lemma_subrange_shift(
                        toks,
                        *i as int,
                        iend as int,
                        seq![SpecElem::Bytes(ps[k as int].0)],
                        elems_of(ps[k as int].1) + elems_of_pairs(ps.skip(k as int + 1)),
                    );
                    assert(toks.subrange(*i as int, iend as int)[0] == SpecElem::Bytes(
                        ps[k as int].0,
                    ));
                    assert(toks[*i as int] == SpecElem::Bytes(ps[k as int].0));
                    assert(elements@[*i as int]@ == toks[*i as int]);
                }
                let key = match &elements[*i] {
                    Element::Bytes(b) => slice_to_vec(b.as_slice()),
                    _ => unreached(),
                };
                *i = *i + 1;
                proof {
                    lemma_subrange_shift(
                        toks,
                        *i as int,
                        iend as int,
                        elems_of(ps[k as int].1),
                        elems_of_pairs(ps.skip(k as int + 1)),
                    );
                    assert(decreases_to!(v => ps));
                    assert(decreases_to!(ps => ps[k as int]));
                    assert(decreases_to!(ps[k as int] => ps[k as int].1));
                }
                let value = build_value(elements, i, Ghost(ps[k as int].1));
                map.insert(key, value);
                proof {
                    assert(key@ == ps[k as int].0);
                    assert(ps.take(k as int).push(ps[k as int]) =~= ps.take(k as int + 1));
                    assert(map@ =~= ps.take(k as int + 1));
                }
                k = k + 1;
            }
            proof {
                assert(ps.skip(n as int) =~= Seq::<(Seq<u8>, SpecValue)>::empty());
                assert(ps.take(n as int) =~= ps);
            }
            Value::Dict(map)
        },
    }
}

/// Splitting a window of a stream at a known front part.
proof fn lemma_subrange_shift(t: Seq<SpecElem>, lo: int, hi: int, a: Seq<SpecElem>, b: Seq<SpecElem>)
    requires
        0 <= lo <= hi <= t.len(),
        t.subrange(lo, hi) == a + b,
    ensures
        t.subrange(lo, lo + a.len()) == a,
        t.subrange(lo + a.len(), hi) == b,
{
    assert((a + b).len() == a.len() + b.len());
    assert(t.subrange(lo, lo + a.len() as int) =~= a) by {
        assert(forall|j: int|
            0 <= j < a.len() ==> t.subrange(lo, hi)[j] == #[trigger] a[j]);
    }
    assert(t.subrange(lo + a.len(), hi) =~= b) by {
        assert(forall|j: int|
            0 <= j < b.len() ==> t.subrange(lo, hi)[a.len() + j] == #[trigger] b[j]);
    }
}

/// The first token of a stream names its value's kind.
proof fn lemma_elems_head(v: SpecValue)
    ensures
        elems_of(v).len() >= 1,
        match v {
            SpecValue::Bytes(b) => elems_of(v)[0] == SpecElem::Bytes(b),
            SpecValue::Int(i) => elems_of(v)[0] == SpecElem::Int(i),
            SpecValue::List(vs) => elems_of(v)[0] == SpecElem::ListBegin(vs.len() as int),
            SpecValue::Dict(ps) => elems_of(v)[0] == SpecElem::DictBegin(ps.len() as int),
        },
{
}

impl Elements {
    /// Rebuilds the value tree this stream linearizes. The stream must be
    /// well-formed; the parser and `into_elements` only ever hand out such
    /// streams.
    pub fn into_value(self) -> (r: Value)
        requires
            self.wf(),
        ensures
            elems_of(r@) == self@,
    {
        let ghost v = choose|v: SpecValue| self@ == elems_of(v);
        let mut i: usize = 0;
        proof {
            lemma_view_elems(self.elements@);
            assert(view_elems(self.elements@).subrange(0, elems_of(v).len() as int) =~= elems_of(
                v,
            ));
        }
        let r = build_value(&self.elements, &mut i, Ghost(v));
        r
    }
}

} // verus!
