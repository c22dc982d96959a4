//! Uniqueness of the wire format: no encoding is a prefix of another, so a
//! byte buffer decodes to at most one value, and the flat element stream
//! linearizes each value in exactly one way.

use vstd::prelude::*;

use crate::bencode::model::{
    digits_val, elems_of, elems_of_pairs, elems_of_seq, enc_bytes, enc_pairs, enc_seq, is_digit,
    is_prefix_of, lemma_spec_digits, lemma_spec_int_digits, spec_digits, spec_enc,
    spec_int_digits, SpecElem, SpecValue,
};

verus! {

/// Splitting one sequence equation at a common front length.
pub proof fn lemma_split_eq<T>(a1: Seq<T>, b1: Seq<T>, a2: Seq<T>, b2: Seq<T>)
    requires
        a1 + b1 == a2 + b2,
        a1.len() == a2.len(),
    ensures
        a1 == a2,
        b1 == b2,
{
    assert((a1 + b1).len() == a1.len() + b1.len());
    assert((a2 + b2).len() == a2.len() + b2.len());
    assert(a1 =~= a2) by {
        assert(forall|i: int| 0 <= i < a1.len() ==> (a1 + b1)[i] == #[trigger] a1[i]);
        assert(forall|i: int| 0 <= i < a2.len() ==> (a2 + b2)[i] == #[trigger] a2[i]);
    }
    assert(b1 =~= b2) by {
        assert(forall|i: int|
            0 <= i < b1.len() ==> (a1 + b1)[a1.len() + i] == #[trigger] b1[i]);
        assert(forall|i: int|
            0 <= i < b2.len() ==> (a2 + b2)[a2.len() + i] == #[trigger] b2[i]);
    }
}

/// What a front part promises: it fits, and agrees index by index.
pub proof fn lemma_prefix_facts(p: Seq<u8>, s: Seq<u8>)
    requires
        is_prefix_of(p, s),
    ensures
        p.len() <= s.len(),
        forall|j: int| 0 <= j < p.len() ==> p[j] == #[trigger] s[j],
{
    reveal(is_prefix_of);
    assert(forall|j: int| 0 <= j < p.len() ==> p[j] == s.subrange(0, p.len() as int)[j]);
}

/// A front part of a concatenation stands at the front.
pub proof fn lemma_concat_prefix(p: Seq<u8>, t: Seq<u8>, s: Seq<u8>)
    requires
        p + t == s,
    ensures
        is_prefix_of(p, s),
{
    reveal(is_prefix_of);
    assert(p =~= s.subrange(0, p.len() as int)) by {
        assert(forall|i: int| 0 <= i < p.len() ==> (p + t)[i] == #[trigger] p[i]);
    }
}

/// What stands at the front splits the rest off as a suffix.
pub proof fn lemma_prefix_concat(p: Seq<u8>, s: Seq<u8>)
    requires
        is_prefix_of(p, s),
    ensures
        p + s.skip(p.len() as int) == s,
{
    reveal(is_prefix_of);
    assert(p + s.skip(p.len() as int) =~= s);
}

/// Every encoding is at least two bytes, opens with the byte that names its
/// kind, and never opens with the terminator `e`.
pub proof fn lemma_enc_shape(v: SpecValue)
    ensures
        spec_enc(v).len() >= 2,
        v matches SpecValue::Bytes(b) ==> is_digit(spec_enc(v)[0]),
        v matches SpecValue::Int(i) ==> spec_enc(v)[0] == 105,
        v matches SpecValue::List(vs) ==> spec_enc(v)[0] == 108,
        v matches SpecValue::Dict(ps) ==> spec_enc(v)[0] == 100,
        spec_enc(v)[0] != 101,
{
    match v {
        SpecValue::Bytes(b) => {
            lemma_spec_digits(b.len());
            assert(spec_enc(v)[0] == spec_digits(b.len())[0]);
        },
        SpecValue::Int(i) => {
            lemma_spec_int_digits(i as int);
        },
        SpecValue::List(vs) => {},
        SpecValue::Dict(ps) => {},
    }
}

/// Two byte-string encodings that open the same buffer are the same
/// string, byte for byte, and leave the same remainder.
pub proof fn lemma_enc_bytes_prefix_free(b1: Seq<u8>, b2: Seq<u8>, s1: Seq<u8>, s2: Seq<u8>)
    requires
        enc_bytes(b1) + s1 == enc_bytes(b2) + s2,
    ensures
        b1 == b2,
        s1 == s2,
{
    let d1 = spec_digits(b1.len());
    let d2 = spec_digits(b2.len());
    lemma_spec_digits(b1.len());
    lemma_spec_digits(b2.len());
    let l = enc_bytes(b1) + s1;
    assert(l =~= d1 + (seq![58u8] + b1 + s1));
    assert(l =~= d2 + (seq![58u8] + b2 + s2));
    assert(d1.len() == d2.len()) by {
        if d1.len() < d2.len() {
            assert(l[d1.len() as int] == 58);
            assert(l[d1.len() as int] == d2[d1.len() as int]);
            assert(is_digit(d2[d1.len() as int]));
        }
        if d2.len() < d1.len() {
            assert(l[d2.len() as int] == 58);
            assert(l[d2.len() as int] == d1[d2.len() as int]);
            assert(is_digit(d1[d2.len() as int]));
        }
    }
    lemma_split_eq(d1, seq![58u8] + b1 + s1, d2, seq![58u8] + b2 + s2);
    assert(b1.len() == b2.len()) by {
        assert(digits_val(d1) == b1.len() && digits_val(d2) == b2.len());
    }
    lemma_split_eq(seq![58u8] + b1, s1, seq![58u8] + b2, s2);
    lemma_split_eq(seq![58u8], b1, seq![58u8], b2);
}

/// Two signed decimal bodies closed by `e` agree on the number and the
/// remainder.
proof fn lemma_int_body_prefix_free(i1: i64, i2: i64, s1: Seq<u8>, s2: Seq<u8>)
    requires
        spec_int_digits(i1 as int) + seq![101u8] + s1 == spec_int_digits(i2 as int) + seq![101u8]
            + s2,
    ensures
        i1 == i2,
        s1 == s2,
{
    let d1 = spec_int_digits(i1 as int);
    let d2 = spec_int_digits(i2 as int);
    lemma_spec_int_digits(i1 as int);
    lemma_spec_int_digits(i2 as int);
    let l = d1 + seq![101u8] + s1;
    assert(l =~= d1 + (seq![101u8] + s1));
    assert(l =~= d2 + (seq![101u8] + s2));
    assert(d1.len() == d2.len()) by {
        if d1.len() < d2.len() {
            assert(l[d1.len() as int] == 101);
            assert(l[d1.len() as int] == d2[d1.len() as int]);
        }
        if d2.len() < d1.len() {
            assert(l[d2.len() as int] == 101);
            assert(l[d2.len() as int] == d1[d2.len() as int]);
        }
    }
    lemma_split_eq(d1, seq![101u8] + s1, d2, seq![101u8] + s2);
    lemma_split_eq(seq![101u8], s1, seq![101u8], s2);
    lemma_int_digits_injective(i1, i2);
}

/// The signed decimal string determines the number.
proof fn lemma_int_digits_injective(i1: i64, i2: i64)
    requires
        spec_int_digits(i1 as int) == spec_int_digits(i2 as int),
    ensures
        i1 == i2,
{
    lemma_spec_int_digits(i1 as int);
    lemma_spec_int_digits(i2 as int);
    lemma_spec_digits_injective();
    if i1 < 0 && i2 < 0 {
        let m1 = spec_digits((-(i1 as int)) as nat);
        let m2 = spec_digits((-(i2 as int)) as nat);
        assert(m1 =~= m2) by {
            let s = spec_int_digits(i1 as int);
            assert(forall|k: int| 0 <= k < m1.len() ==> s[k + 1] == #[trigger] m1[k]);
            assert(forall|k: int| 0 <= k < m2.len() ==> s[k + 1] == #[trigger] m2[k]);
        }
    }
}

/// The unsigned decimal string determines the number.
proof fn lemma_spec_digits_injective()
    ensures
        forall|n1: nat, n2: nat|
            #[trigger] spec_digits(n1) == #[trigger] spec_digits(n2) ==> n1 == n2,
{
    assert forall|n1: nat, n2: nat|
        #[trigger] spec_digits(n1) == #[trigger] spec_digits(n2) implies n1 == n2 by {
        lemma_spec_digits(n1);
        lemma_spec_digits(n2);
    }
}

/// No value's encoding is a proper prefix of another's: whatever opens the
/// same buffer is the same value with the same remainder.
pub proof fn lemma_enc_prefix_free(a: SpecValue, b: SpecValue, s1: Seq<u8>, s2: Seq<u8>)
    requires
        spec_enc(a) + s1 == spec_enc(b) + s2,
    ensures
        a == b,
        s1 == s2,
    decreases a,
{
    lemma_enc_shape(a);
    lemma_enc_shape(b);
    let l = spec_enc(a) + s1;
    assert(l[0] == spec_enc(a)[0]);
    assert(l[0] == spec_enc(b)[0]);
    match a {
        SpecValue::Bytes(b1) => {
            let b2 = b->Bytes_0;
            assert(enc_bytes(b1) + s1 == enc_bytes(b2) + s2);
            lemma_enc_bytes_prefix_free(b1, b2, s1, s2);
        },
        SpecValue::Int(i1) => {
            let i2 = b->Int_0;
            assert(l =~= seq![105u8] + (spec_int_digits(i1 as int) + seq![101u8] + s1));
            assert(l =~= seq![105u8] + (spec_int_digits(i2 as int) + seq![101u8] + s2));
            lemma_split_eq(
                seq![105u8],
                spec_int_digits(i1 as int) + seq![101u8] + s1,
                seq![105u8],
                spec_int_digits(i2 as int) + seq![101u8] + s2,
            );
            lemma_int_body_prefix_free(i1, i2, s1, s2);
        },
        SpecValue::List(vs) => {
            let ws = b->List_0;
            assert(l =~= seq![108u8] + (enc_seq(vs) + seq![101u8] + s1));
            assert(l =~= seq![108u8] + (enc_seq(ws) + seq![101u8] + s2));
            lemma_split_eq(
                seq![108u8],
                enc_seq(vs) + seq![101u8] + s1,
                seq![108u8],
                enc_seq(ws) + seq![101u8] + s2,
            );
            lemma_enc_seq_prefix_free(vs, ws, s1, s2);
        },
        SpecValue::Dict(ps) => {
            let qs = b->Dict_0;
            assert(l =~= seq![100u8] + (enc_pairs(ps) + seq![101u8] + s1));
            assert(l =~= seq![100u8] + (enc_pairs(qs) + seq![101u8] + s2));
            lemma_split_eq(
                seq![100u8],
                enc_pairs(ps) + seq![101u8] + s1,
                seq![100u8],
                enc_pairs(qs) + seq![101u8] + s2,
            );
            lemma_enc_pairs_prefix_free(ps, qs, s1, s2);
        },
    }
}

/// List bodies closed by `e` agree item by item.
pub proof fn lemma_enc_seq_prefix_free(
    vs: Seq<SpecValue>,
    ws: Seq<SpecValue>,
    s1: Seq<u8>,
    s2: Seq<u8>,
)
    requires
        enc_seq(vs) + seq![101u8] + s1 == enc_seq(ws) + seq![101u8] + s2,
    ensures
        vs == ws,
        s1 == s2,
    decreases vs,
{
    let l = enc_seq(vs) + seq![101u8] + s1;
    if vs.len() == 0 && ws.len() == 0 {
        assert(vs =~= ws);
        assert(l =~= seq![101u8] + s1);
        assert(l =~= seq![101u8] + s2);
        lemma_split_eq(seq![101u8], s1, seq![101u8], s2);
    } else if vs.len() == 0 {
        lemma_enc_shape(ws[0]);
        assert(l =~= seq![101u8] + s1);
        assert(l[0] == 101);
        assert(l =~= spec_enc(ws[0]) + (enc_seq(ws.drop_first()) + seq![101u8] + s2));
        assert(l[0] == spec_enc(ws[0])[0]);
        assert(false);
    } else if ws.len() == 0 {
        lemma_enc_shape(vs[0]);
        assert(l =~= seq![101u8] + s2);
        assert(l[0] == 101);
        assert(l =~= spec_enc(vs[0]) + (enc_seq(vs.drop_first()) + seq![101u8] + s1));
        assert(l[0] == spec_enc(vs[0])[0]);
        assert(false);
    } else {
        assert(l =~= spec_enc(vs[0]) + (enc_seq(vs.drop_first()) + seq![101u8] + s1));
        assert(l =~= spec_enc(ws[0]) + (enc_seq(ws.drop_first()) + seq![101u8] + s2));
        lemma_enc_prefix_free(
            vs[0],
            ws[0],
            enc_seq(vs.drop_first()) + seq![101u8] + s1,
            enc_seq(ws.drop_first()) + seq![101u8] + s2,
        );
        lemma_enc_seq_prefix_free(vs.drop_first(), ws.drop_first(), s1, s2);
        assert(vs =~= ws) by {
            assert(forall|i: int|
                1 <= i < vs.len() ==> #[trigger] vs[i] == vs.drop_first()[i - 1]);
            assert(forall|i: int|
                1 <= i < ws.len() ==> #[trigger] ws[i] == ws.drop_first()[i - 1]);
        }
    }
}

/// Dictionary bodies closed by `e` agree pair by pair.
pub proof fn lemma_enc_pairs_prefix_free(
    ps: Seq<(Seq<u8>, SpecValue)>,
    qs: Seq<(Seq<u8>, SpecValue)>,
    s1: Seq<u8>,
    s2: Seq<u8>,
)
    requires
        enc_pairs(ps) + seq![101u8] + s1 == enc_pairs(qs) + seq![101u8] + s2,
    ensures
        ps == qs,
        s1 == s2,
    decreases ps,
{
    let l = enc_pairs(ps) + seq![101u8] + s1;
    if ps.len() == 0 && qs.len() == 0 {
        assert(ps =~= qs);
        assert(l =~= seq![101u8] + s1);
        assert(l =~= seq![101u8] + s2);
        lemma_split_eq(seq![101u8], s1, seq![101u8], s2);
    } else if ps.len() == 0 {
        lemma_enc_bytes_shape(qs[0].0);
        assert(l =~= seq![101u8] + s1);
        assert(l[0] == 101);
        assert(l =~= enc_bytes(qs[0].0) + (spec_enc(qs[0].1) + (enc_pairs(qs.drop_first())
            + seq![101u8] + s2)));
        assert(l[0] == enc_bytes(qs[0].0)[0]);
        assert(false);
    } else if qs.len() == 0 {
        lemma_enc_bytes_shape(ps[0].0);
        assert(l =~= seq![101u8] + s2);
        assert(l[0] == 101);
        assert(l =~= enc_bytes(ps[0].0) + (spec_enc(ps[0].1) + (enc_pairs(ps.drop_first())
            + seq![101u8] + s1)));
        assert(l[0] == enc_bytes(ps[0].0)[0]);
        assert(false);
    } else {
        assert(l =~= enc_bytes(ps[0].0) + (spec_enc(ps[0].1) + (enc_pairs(ps.drop_first())
            + seq![101u8] + s1)));
        assert(l =~= enc_bytes(qs[0].0) + (spec_enc(qs[0].1) + (enc_pairs(qs.drop_first())
            + seq![101u8] + s2)));
        lemma_enc_bytes_prefix_free(
            ps[0].0,
            qs[0].0,
            spec_enc(ps[0].1) + (enc_pairs(ps.drop_first()) + seq![101u8] + s1),
            spec_enc(qs[0].1) + (enc_pairs(qs.drop_first()) + seq![101u8] + s2),
        );
        lemma_enc_prefix_free(
            ps[0].1,
            qs[0].1,
            enc_pairs(ps.drop_first()) + seq![101u8] + s1,
            enc_pairs(qs.drop_first()) + seq![101u8] + s2,
        );
        lemma_enc_pairs_prefix_free(ps.drop_first(), qs.drop_first(), s1, s2);
        assert(ps[0] == qs[0]);
        assert(ps =~= qs) by {
            assert(forall|i: int|
                1 <= i < ps.len() ==> #[trigger] ps[i] == ps.drop_first()[i - 1]);
            assert(forall|i: int|
                1 <= i < qs.len() ==> #[trigger] qs[i] == qs.drop_first()[i - 1]);
        }
    }
}

/// A byte-string encoding is nonempty and opens with a digit.
pub proof fn lemma_enc_bytes_shape(b: Seq<u8>)
    ensures
        enc_bytes(b).len() >= 2,
        is_digit(enc_bytes(b)[0]),
        enc_bytes(b)[0] != 101,
{
    lemma_spec_digits(b.len());
    assert(enc_bytes(b)[0] == spec_digits(b.len())[0]);
}

/// The wire form determines the value outright.
pub proof fn lemma_enc_injective(a: SpecValue, b: SpecValue)
    requires
        spec_enc(a) == spec_enc(b),
    ensures
        a == b,
{
    assert(spec_enc(a) + Seq::<u8>::empty() =~= spec_enc(b) + Seq::<u8>::empty());
    lemma_enc_prefix_free(a, b, Seq::<u8>::empty(), Seq::<u8>::empty());
}

/// A stream opens with the token that names its value's kind and count.
proof fn lemma_elems_shape(v: SpecValue)
    ensures
        elems_of(v).len() >= 1,
        match v {
            SpecValue::Bytes(b) => elems_of(v)[0] == SpecElem::Bytes(b),
            SpecValue::Int(i) => elems_of(v)[0] == SpecElem::Int(i),
            SpecValue::List(vs) => elems_of(v)[0] == SpecElem::ListBegin(vs.len() as int),
            SpecValue::Dict(ps) => elems_of(v)[0] == SpecElem::DictBegin(ps.len() as int),
        },
{
}

/// No value's element stream is a prefix of another's.
pub proof fn lemma_elems_prefix_free(
    a: SpecValue,
    b: SpecValue,
    t1: Seq<SpecElem>,
    t2: Seq<SpecElem>,
)
    requires
        elems_of(a) + t1 == elems_of(b) + t2,
    ensures
        a == b,
        t1 == t2,
    decreases a,
{
    lemma_elems_shape(a);
    lemma_elems_shape(b);
    let l = elems_of(a) + t1;
    assert(l[0] == elems_of(a)[0]);
    assert(l[0] == elems_of(b)[0]);
    match a {
        SpecValue::Bytes(b1) => {
            lemma_split_eq(elems_of(a), t1, elems_of(b), t2);
        },
        SpecValue::Int(i1) => {
            lemma_split_eq(elems_of(a), t1, elems_of(b), t2);
        },
        SpecValue::List(vs) => {
            let ws = b->List_0;
            assert(vs.len() == ws.len());
            assert(l =~= seq![SpecElem::ListBegin(vs.len() as int)] + (elems_of_seq(vs) + t1));
            assert(l =~= seq![SpecElem::ListBegin(ws.len() as int)] + (elems_of_seq(ws) + t2));
            lemma_split_eq(
                seq![SpecElem::ListBegin(vs.len() as int)],
                elems_of_seq(vs) + t1,
                seq![SpecElem::ListBegin(ws.len() as int)],
                elems_of_seq(ws) + t2,
            );
            lemma_elems_seq_prefix_free(vs, ws, t1, t2);
        },
        SpecValue::Dict(ps) => {
            let qs = b->Dict_0;
            assert(ps.len() == qs.len());
            assert(l =~= seq![SpecElem::DictBegin(ps.len() as int)] + (elems_of_pairs(ps)
                + t1));
            assert(l =~= seq![SpecElem::DictBegin(qs.len() as int)] + (elems_of_pairs(qs)
                + t2));
            lemma_split_eq(
                seq![SpecElem::DictBegin(ps.len() as int)],
                elems_of_pairs(ps) + t1,
                seq![SpecElem::DictBegin(qs.len() as int)],
                elems_of_pairs(qs) + t2,
            );
            lemma_elems_pairs_prefix_free(ps, qs, t1, t2);
        },
    }
}

/// Streams of equally long list bodies agree item by item.
proof fn lemma_elems_seq_prefix_free(
    vs: Seq<SpecValue>,
    ws: Seq<SpecValue>,
    t1: Seq<SpecElem>,
    t2: Seq<SpecElem>,
)
    requires
        elems_of_seq(vs) + t1 == elems_of_seq(ws) + t2,
        vs.len() == ws.len(),
    ensures
        vs == ws,
        t1 == t2,
    decreases vs,
{
    if vs.len() == 0 {
        assert(vs =~= ws);
        assert(elems_of_seq(vs) =~= Seq::<SpecElem>::empty());
        assert(elems_of_seq(ws) =~= Seq::<SpecElem>::empty());
        assert(t1 =~= elems_of_seq(vs) + t1);
        assert(t2 =~= elems_of_seq(ws) + t2);
    } else {
        let l = elems_of_seq(vs) + t1;
        assert(l =~= elems_of(vs[0]) + (elems_of_seq(vs.drop_first()) + t1));
        assert(l =~= elems_of(ws[0]) + (elems_of_seq(ws.drop_first()) + t2));
        lemma_elems_prefix_free(
            vs[0],
            ws[0],
            elems_of_seq(vs.drop_first()) + t1,
            elems_of_seq(ws.drop_first()) + t2,
        );
        lemma_elems_seq_prefix_free(vs.drop_first(), ws.drop_first(), t1, t2);
        assert(vs =~= ws) by {
            assert(forall|i: int|
                1 <= i < vs.len() ==> #[trigger] vs[i] == vs.drop_first()[i - 1]);
            assert(forall|i: int|
                1 <= i < ws.len() ==> #[trigger] ws[i] == ws.drop_first()[i - 1]);
        }
    }
}

/// Streams of equally long dictionary bodies agree pair by pair.
proof fn lemma_elems_pairs_prefix_free(
    ps: Seq<(Seq<u8>, SpecValue)>,
    qs: Seq<(Seq<u8>, SpecValue)>,
    t1: Seq<SpecElem>,
    t2: Seq<SpecElem>,
)
    requires
        elems_of_pairs(ps) + t1 == elems_of_pairs(qs) + t2,
        ps.len() == qs.len(),
    ensures
        ps == qs,
        t1 == t2,
    decreases ps,
{
    if ps.len() == 0 {
        assert(ps =~= qs);
        assert(elems_of_pairs(ps) =~= Seq::<SpecElem>::empty());
        assert(elems_of_pairs(qs) =~= Seq::<SpecElem>::empty());
        assert(t1 =~= elems_of_pairs(ps) + t1);
        assert(t2 =~= elems_of_pairs(qs) + t2);
    } else {
        let l = elems_of_pairs(ps) + t1;
        assert(l =~= seq![SpecElem::Bytes(ps[0].0)] + (elems_of(ps[0].1) + (elems_of_pairs(
            ps.drop_first(),
        ) + t1)));
        assert(l =~= seq![SpecElem::Bytes(qs[0].0)] + (elems_of(qs[0].1) + (elems_of_pairs(
            qs.drop_first(),
        ) + t2)));
        lemma_split_eq(
            seq![SpecElem::Bytes(ps[0].0)],
            elems_of(ps[0].1) + (elems_of_pairs(ps.drop_first()) + t1),
            seq![SpecElem::Bytes(qs[0].0)],
            elems_of(qs[0].1) + (elems_of_pairs(qs.drop_first()) + t2),
        );
        lemma_elems_prefix_free(
            ps[0].1,
            qs[0].1,
            elems_of_pairs(ps.drop_first()) + t1,
            elems_of_pairs(qs.drop_first()) + t2,
        );
        lemma_elems_pairs_prefix_free(ps.drop_first(), qs.drop_first(), t1, t2);
        assert(seq![SpecElem::Bytes(ps[0].0)][0] == seq![SpecElem::Bytes(qs[0].0)][0]);
        assert(ps[0].0 == qs[0].0);
        assert(ps[0].1 == qs[0].1);
        assert(ps[0] == (ps[0].0, ps[0].1));
        assert(qs[0] == (qs[0].0, qs[0].1));
        assert(ps[0] == qs[0]);
        assert(ps =~= qs) by {
            assert(forall|i: int|
                1 <= i < ps.len() ==> #[trigger] ps[i] == ps.drop_first()[i - 1]);
            assert(forall|i: int|
                1 <= i < qs.len() ==> #[trigger] qs[i] == qs.drop_first()[i - 1]);
        }
    }
}

/// The element stream determines the value outright.
pub proof fn lemma_elems_injective(a: SpecValue, b: SpecValue)
    requires
        elems_of(a) == elems_of(b),
    ensures
        a == b,
{
    assert(elems_of(a) + Seq::<SpecElem>::empty() =~= elems_of(b) + Seq::<SpecElem>::empty());
    lemma_elems_prefix_free(a, b, Seq::<SpecElem>::empty(), Seq::<SpecElem>::empty());
}

} // verus!
