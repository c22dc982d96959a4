//! The streaming encoder: writes a `Value` tree back to bencoded bytes in a
//! single growing output buffer, emitting dictionary entries in whatever
//! order the map holds them.

use vstd::prelude::*;

use crate::bencode::model::{
    enc_bytes, enc_pairs, enc_seq, lemma_enc_pairs_step, lemma_enc_seq_step, lemma_spec_digits,
    lemma_spec_int_digits, spec_digits, spec_enc, spec_int_digits, SpecValue,
};
use crate::bencode::dict::{lemma_map_view, lemma_view_pairs};
use crate::bencode::model::{
    elems_of, elems_of_pairs, elems_of_seq, lemma_elems_pairs_step, lemma_elems_seq_step,
    SpecElem,
};
use crate::bencode::repr::{
    lemma_view_elems, lemma_view_values, view_elems, view_values, Element, Elements, Value,
};
use crate::bytebuf::{buf_bytes, buf_new, buf_put_slice, buf_put_u8, buf_to_vec};

verus! {

/// Appends the decimal ASCII digits of `n`, most significant first.
fn push_decimal(buf: &mut bytes::BytesMut, n: u64)
    requires
        buf_bytes(*old(buf)).len() + spec_digits(n as nat).len() <= usize::MAX,
    ensures
        buf_bytes(*final(buf)) == buf_bytes(*old(buf)) + spec_digits(n as nat),
    decreases n,
{
    if n >= 10 {
        push_decimal(buf, n / 10);
    }
    buf_put_u8(buf, 48 + (n % 10) as u8);
    proof {
        if n < 10 {
            assert(buf_bytes(*buf) =~= buf_bytes(*old(buf)) + spec_digits(n as nat));
        } else {
            assert((n / 10) as nat == n as nat / 10);
            assert((n % 10) as nat == n as nat % 10);
            assert(buf_bytes(*buf) =~= buf_bytes(*old(buf)) + spec_digits(n as nat));
        }
    }
}

/// Appends the wire form of a byte string: decimal length, `:`, the bytes.
pub(crate) fn encode_string(bytes: &[u8], buf: &mut bytes::BytesMut)
    requires
        buf_bytes(*old(buf)).len() + enc_bytes(bytes@).len() <= usize::MAX,
    ensures
        buf_bytes(*final(buf)) == buf_bytes(*old(buf)) + enc_bytes(bytes@),
{
    proof {
        lemma_spec_digits(bytes@.len());
    }
    push_decimal(buf, bytes.len() as u64);
    buf_put_u8(buf, 58);
    buf_put_slice(buf, bytes);
    proof {
        assert(buf_bytes(*buf) =~= buf_bytes(*old(buf)) + enc_bytes(bytes@));
    }
}

/// Appends the wire form of an integer: `i`, signed decimal ASCII, `e`.
pub(crate) fn encode_integer(i: i64, buf: &mut bytes::BytesMut)
    requires
        buf_bytes(*old(buf)).len() + spec_enc(SpecValue::Int(i)).len() <= usize::MAX,
    ensures
        buf_bytes(*final(buf)) == buf_bytes(*old(buf)) + spec_enc(SpecValue::Int(i)),
{
    proof {
        lemma_spec_int_digits(i as int);
    }
    buf_put_u8(buf, 105);
    if i < 0 {
        buf_put_u8(buf, 45);
        let mag: u64 = ((-(i + 1)) as u64) + 1;
        assert(mag as nat == (-(i as int)) as nat);
        push_decimal(buf, mag);
    } else {
        push_decimal(buf, i as u64);
    }
    buf_put_u8(buf, 101);
    proof {
        assert(buf_bytes(*buf) =~= buf_bytes(*old(buf)) + spec_enc(SpecValue::Int(i)));
    }
}

/// Appends the wire form of one value; lists and dictionaries recurse over
/// their children in order.
fn encode_value(value: &Value, buf: &mut bytes::BytesMut)
    requires
        buf_bytes(*old(buf)).len() + spec_enc(value@).len() <= usize::MAX,
    ensures
        buf_bytes(*final(buf)) == buf_bytes(*old(buf)) + spec_enc(value@),
    decreases value,
{
    match value {
        Value::Bytes(b) => {
            encode_string(b.as_slice(), buf);
        },
        Value::Int(i) => {
            encode_integer(*i, buf);
        },
        Value::List(vs) => {
            proof {
                lemma_view_values(vs@);
            }
            let ghost views = view_values(vs@);
            buf_put_u8(buf, 108);
            proof {
                assert(views.skip(0) =~= views);
            }
            let n = vs.len();
            let mut k: usize = 0;
            while k < n
                invariant
                    n == vs.len(),
                    k <= n,
                    views == view_values(vs@),
                    views.len() == n,
                    forall|j: int| 0 <= j < n ==> views[j] == vs@[j]@,
                    *value == Value::List(*vs),
                    value@ == SpecValue::List(views),
                    buf_bytes(*old(buf)).len() + spec_enc(value@).len() <= usize::MAX,
                    buf_bytes(*buf) + enc_seq(views.skip(k as int)) == buf_bytes(*old(buf)).push(
                        108u8,
                    ) + enc_seq(views),
                decreases n - k,
            {
                proof {
                    lemma_enc_seq_step(views, k as int);
                    assert(spec_enc(value@) == seq![108u8] + enc_seq(views) + seq![101u8]);
                    assert(spec_enc(value@).len() == 2 + enc_seq(views).len());
                    assert((buf_bytes(*buf) + enc_seq(views.skip(k as int))).len()
                        == buf_bytes(*buf).len() + enc_seq(views.skip(k as int)).len());
                    assert(enc_seq(views.skip(k as int)).len() == spec_enc(views[k as int]).len()
                        + enc_seq(views.skip(k as int + 1)).len());
                    assert(buf_bytes(*buf).len() + spec_enc(views[k as int]).len()
                        <= usize::MAX);
                    assert(decreases_to!(*value => *vs));
                    assert(decreases_to!(*vs => vs@[k as int]));
                }
                encode_value(&vs[k], buf);
                k = k + 1;
            }
            proof {
                assert(views.skip(n as int) =~= Seq::<SpecValue>::empty());
                assert(enc_seq(views.skip(n as int)) == Seq::<u8>::empty());
                assert(buf_bytes(*buf) =~= buf_bytes(*old(buf)).push(108u8) + enc_seq(views));
            }
            buf_put_u8(buf, 101);
            proof {
                assert(buf_bytes(*buf) =~= buf_bytes(*old(buf)) + spec_enc(value@));
            }
        },
        Value::Dict(m) => {
            let ghost pairs = m@;
            proof {
                lemma_map_view(*m);
                lemma_view_pairs(m.entries@);
            }
            buf_put_u8(buf, 100);
            proof {
                assert(pairs.skip(0) =~= pairs);
            }
            let n = m.entries.len();
            let mut k: usize = 0;
            while k < n
                invariant
                    n == pairs.len(),
                    n == m.entries.len(),
                    k <= n,
                    pairs == m@,
                    forall|j: int| 0 <= j < n ==> pairs[j] == (m.entries@[j].0@, m.entries@[j].1@),
                    *value == Value::Dict(*m),
                    value@ == SpecValue::Dict(pairs),
                    buf_bytes(*old(buf)).len() + spec_enc(value@).len() <= usize::MAX,
                    buf_bytes(*buf) + enc_pairs(pairs.skip(k as int)) == buf_bytes(*old(buf)).push(
                        100u8,
                    ) + enc_pairs(pairs),
                decreases n - k,
            {
                proof {
                    lemma_enc_pairs_step(pairs, k as int);
                    assert(spec_enc(value@) == seq![100u8] + enc_pairs(pairs) + seq![101u8]);
                    assert(spec_enc(value@).len() == 2 + enc_pairs(pairs).len());
                    assert((buf_bytes(*buf) + enc_pairs(pairs.skip(k as int))).len()
                        == buf_bytes(*buf).len() + enc_pairs(pairs.skip(k as int)).len());
                    assert(enc_pairs(pairs.skip(k as int)).len() == enc_bytes(pairs[k as int].0).len()
                        + spec_enc(pairs[k as int].1).len() + enc_pairs(pairs.skip(k as int + 1)).len());
                    assert(buf_bytes(*buf).len() + enc_bytes(pairs[k as int].0).len()
                        + spec_enc(pairs[k as int].1).len() <= usize::MAX);
                    assert(decreases_to!(*value => *m));
                    assert(decreases_to!(*m => m.entries));
                    assert(decreases_to!(m.entries => m.entries@[k as int]));
                    assert(decreases_to!(m.entries@[k as int] => m.entries@[k as int].1));
                }
                let entry = &m.entries[k];
                encode_string(entry.0.as_slice(), buf);
                encode_value(&entry.1, buf);
                k = k + 1;
            }
            proof {
                assert(pairs.skip(n as int) =~= Seq::<(Seq<u8>, SpecValue)>::empty());
                assert(buf_bytes(*buf) =~= buf_bytes(*old(buf)).push(100u8) + enc_pairs(pairs));
            }
            buf_put_u8(buf, 101);
            proof {
                assert(buf_bytes(*buf) =~= buf_bytes(*old(buf)) + spec_enc(value@));
            }
        },
    }
}

/// Writes `value` as bencoded bytes. The dictionary entries go out in the
/// order the maps hold them: canonical output is the caller's business,
/// through `OrderedMap::ensure_order` before encoding.
pub fn encode(value: &Value) -> (r: Vec<u8>)
    requires
        spec_enc(value@).len() <= usize::MAX,
    ensures
        r@ == spec_enc(value@),
{
    let mut buf = buf_new();
    encode_value(value, &mut buf);
    buf_to_vec(&buf)
}

/// Splitting a window of a token stream at a known front part.
proof fn lemma_window_shift(t: Seq<SpecElem>, lo: int, hi: int, a: Seq<SpecElem>, b: Seq<SpecElem>)
    requires
        0 <= lo <= hi <= t.len(),
        t.subrange(lo, hi) == a + b,
    ensures
        t.subrange(lo, lo + a.len()) == a,
        t.subrange(lo + a.len(), hi) == b,
{
    assert((a + b).len() == a.len() + b.len());
    assert(t.subrange(lo, lo + a.len() as int) =~= a) by {
        assert(forall|j: int|
            0 <= j < a.len() ==> t.subrange(lo, hi)[j] == #[trigger] a[j]);
    }
    assert(t.subrange(lo + a.len(), hi) =~= b) by {
        assert(forall|j: int|
            0 <= j < b.len() ==> t.subrange(lo, hi)[a.len() + j] == #[trigger] b[j]);
    }
}

/// Writes the wire form of the value whose stream stands at `*i`,
/// advancing the cursor past it.
#[verifier::loop_isolation(false)]
#[verifier::rlimit(100)]
fn encode_stream(
    elements: &Vec<Element>,
    i: &mut usize,
    buf: &mut bytes::BytesMut,
    Ghost(v): Ghost<SpecValue>,
)
    requires
        *old(i) + elems_of(v).len() <= elements@.len(),
        view_elems(elements@).subrange(
            *old(i) as int,
            *old(i) + elems_of(v).len(),
        ) == elems_of(v),
        buf_bytes(*old(buf)).len() + spec_enc(v).len() <= usize::MAX,
    ensures
        buf_bytes(*final(buf)) == buf_bytes(*old(buf)) + spec_enc(v),
        *final(i) == *old(i) + elems_of(v).len(),
    decreases v,
{
    proof {
        lemma_view_elems(elements@);
        assert(vstd::std_specs::vec::spec_vec_len(elements) == elements@.len());
    }
    let ghost toks = view_elems(elements@);
    proof {
        assert(elems_of(v).len() >= 1) by {
            match v {
                SpecValue::Bytes(_) => {},
                SpecValue::Int(_) => {},
                SpecValue::List(_) => {},
                SpecValue::Dict(_) => {},
            }
        }
        assert(toks[*old(i) as int] == elems_of(v)[0]);
        assert(elements@[*old(i) as int]@ == toks[*old(i) as int]);
    }
    match &elements[*i] {
        Element::Bytes(b) => {
            proof {
                assert(v == SpecValue::Bytes(b@));
            }
            encode_string(b.as_slice(), buf);
            *i = *i + 1;
        },
        Element::Int(n) => {
            proof {
                assert(v == SpecValue::Int(*n));
            }
            encode_integer(*n, buf);
            *i = *i + 1;
        },
        Element::ListBegin(ct) => {
            let ghost ws = v->List_0;
            proof {
                assert(v matches SpecValue::List(_));
                assert(*ct as int == ws.len());
                assert(v == SpecValue::List(ws));
                assert(elems_of(v) == seq![SpecElem::ListBegin(ws.len() as int)]
                    + elems_of_seq(ws));
                assert(spec_enc(v) == seq![108u8] + enc_seq(ws) + seq![101u8]);
                assert(spec_enc(v).len() == 2 + enc_seq(ws).len());
            }
            let n = *ct;
            buf_put_u8(buf, 108);
            *i = *i + 1;
            let ghost iend = *old(i) + elems_of(v).len();
            let ghost head = buf_bytes(*buf);
            proof {
                lemma_window_shift(
                    toks,
                    *old(i) as int,
                    iend as int,
                    seq![SpecElem::ListBegin(ws.len() as int)],
                    elems_of_seq(ws),
                );
                assert(ws.skip(0) =~= ws);
            }
            let mut k: usize = 0;
            while k < n
                invariant
                    k <= n,
                    n as int == ws.len(),
                    *i + elems_of_seq(ws.skip(k as int)).len() == iend,
                    iend <= elements@.len(),
                    toks.subrange(*i as int, iend as int) == elems_of_seq(ws.skip(k as int)),
                    buf_bytes(*buf) + enc_seq(ws.skip(k as int)) == head + enc_seq(ws),
                    buf_bytes(*buf).len() + enc_seq(ws.skip(k as int)).len() <= usize::MAX - 1,
                decreases n - k,
            {
                proof {
                    lemma_elems_seq_step(ws, k as int);
                    lemma_enc_seq_step(ws, k as int);
                    lemma_window_shift(
                        toks,
                        *i as int,
                        iend as int,
                        elems_of(ws[k as int]),
                        elems_of_seq(ws.skip(k as int + 1)),
                    );
                    assert(decreases_to!(v => ws));
                    assert(decreases_to!(ws => ws[k as int]));
                }
                encode_stream(elements, i, buf, Ghost(ws[k as int]));
                k = k + 1;
            }
            proof {
                assert(ws.skip(n as int) =~= Seq::<SpecValue>::empty());
            }
            buf_put_u8(buf, 101);
            proof {
                assert(buf_bytes(*buf) =~= buf_bytes(*old(buf)) + spec_enc(v));
            }
        },
        Element::DictBegin(ct) => {
            let ghost ps = v->Dict_0;
            proof {
                assert(v matches SpecValue::Dict(_));
                assert(*ct as int == ps.len());
                assert(v == SpecValue::Dict(ps));
                assert(elems_of(v) == seq![SpecElem::DictBegin(ps.len() as int)]
                    + elems_of_pairs(ps));
                assert(spec_enc(v) == seq![100u8] + enc_pairs(ps) + seq![101u8]);
                assert(spec_enc(v).len() == 2 + enc_pairs(ps).len());
            }
            let n = *ct;
            buf_put_u8(buf, 100);
            *i = *i + 1;
            let ghost iend = *old(i) + elems_of(v).len();
            let ghost head = buf_bytes(*buf);
            proof {
                lemma_window_shift(
                    toks,
                    *old(i) as int,
                    iend as int,
                    seq![SpecElem::DictBegin(ps.len() as int)],
                    elems_of_pairs(ps),
                );
                assert(ps.skip(0) =~= ps);
            }
            let mut k: usize = 0;
            while k < n
                invariant
                    k <= n,
                    n as int == ps.len(),
                    *i + elems_of_pairs(ps.skip(k as int)).len() == iend,
                    iend <= elements@.len(),
                    toks.subrange(*i as int, iend as int) == elems_of_pairs(ps.skip(k as int)),
                    buf_bytes(*buf) + enc_pairs(ps.skip(k as int)) == head + enc_pairs(ps),
                    buf_bytes(*buf).len() + enc_pairs(ps.skip(k as int)).len() <= usize::MAX
                        - 1,
                decreases n - k,
            {
                proof {
                    lemma_elems_pairs_step(ps, k as int);
                    lemma_enc_pairs_step(ps, k as int);
                    assert(elems_of_pairs(ps.skip(k as int)) =~= seq![SpecElem::Bytes(
                        ps[k as int].0,
                    )] + (elems_of(ps[k as int].1) + elems_of_pairs(ps.skip(k as int + 1))));
                    lemma_window_shift(
                        toks,
                        *i as int,
                        iend as int,
                        seq![SpecElem::Bytes(ps[k as int].0)],
                        elems_of(ps[k as int].1) + elems_of_pairs(ps.skip(k as int + 1)),
                    );
                    assert(toks.subrange(*i as int, iend as int)[0] == SpecElem::Bytes(
                        ps[k as int].0,
                    ));
                    assert(toks[*i as int] == SpecElem::Bytes(ps[k as int].0));
                    assert(elements@[*i as int]@ == toks[*i as int]);
                }
                let key = match &elements[*i] {
                    Element::Bytes(b) => b,
                    _ => vstd::pervasive::unreached(),
                };
                encode_string(key.as_slice(), buf);
                *i = *i + 1;
                proof {
                    lemma_window_shift(
                        toks,
                        *i as int,
                        iend as int,
                        elems_of(ps[k as int].1),
                        elems_of_pairs(ps.skip(k as int + 1)),
                    );
                    assert(decreases_to!(v => ps));
                    assert(decreases_to!(ps => ps[k as int]));
                    assert(decreases_to!(ps[k as int] => ps[k as int].1));
                }
                encode_stream(elements, i, buf, Ghost(ps[k as int].1));
                k = k + 1;
            }
            proof {
                assert(ps.skip(n as int) =~= Seq::<(Seq<u8>, SpecValue)>::empty());
            }
            buf_put_u8(buf, 101);
            proof {
                assert(buf_bytes(*buf) =~= buf_bytes(*old(buf)) + spec_enc(v));
            }
        },
    }
}

/// Writes a parsed token stream straight back to bencoded bytes, without
/// rebuilding a value tree: identical output to `encode` of the value the
/// stream linearizes.
pub fn encode_elements(els: &Elements) -> (r: Vec<u8>)
    requires
        els.wf(),
        forall|v: SpecValue| els@ == elems_of(v) ==> spec_enc(v).len() <= usize::MAX,
    ensures
        forall|v: SpecValue| els@ == elems_of(v) ==> r@ == spec_enc(v),
{
    let ghost v = choose|v: SpecValue| els@ == elems_of(v);
    let elements = els.tokens();
    let mut i: usize = 0;
    let mut buf = buf_new();
    proof {
        lemma_view_elems(elements@);
        assert(view_elems(elements@).subrange(0, elems_of(v).len() as int) =~= elems_of(v));
    }
    encode_stream(elements, &mut i, &mut buf, Ghost(v));
    let out = buf_to_vec(&buf);
    proof {
        assert forall|w: SpecValue| els@ == elems_of(w) implies out@ == spec_enc(w) by {
            crate::bencode::unique::lemma_elems_injective(w, v);
        }
    }
    out
}

} // verus!
