//! The laws of the codec, stated once and proved: the wire form and the
//! element stream each determine the value, encoding is a function of the
//! in-memory state alone, and canonicalization leaves one possible form.

use vstd::prelude::*;

use crate::bencode::dict::{
    distinct_keys, lemma_lex_le_total, lex_le, sorted_by_keys,
};
use crate::bencode::model::{
    accepts, elems_of, elems_of_pairs, elems_of_seq, enc_bytes, enc_pairs, enc_seq,
    is_subrange_of, lemma_spec_digits, spec_digits, spec_enc, SpecElem, SpecValue,
};
use crate::bencode::unique::{lemma_elems_injective, lemma_enc_injective};
use vstd::multiset::group_multiset_axioms;
use vstd::seq_lib::group_to_multiset_ensures;

verus! {

/// Round-trip over the wire: every encoder output parses, and parses back
/// to the value it came from. With `encode`'s contract (its output is
/// `spec_enc` of the value) and `parse`'s contract (success on exactly the
/// buffers in `accepts`, to the unique matching stream), this pins
/// `parse(encode(v))` down to `v` itself.
pub proof fn lemma_wire_round_trip(v: SpecValue)
    ensures
        accepts(spec_enc(v)),
        forall|w: SpecValue| spec_enc(w) == spec_enc(v) ==> w == v,
{
    assert(accepts(spec_enc(v))) by {
        assert(spec_enc(v) == spec_enc(v));
    }
    assert forall|w: SpecValue| spec_enc(w) == spec_enc(v) implies w == v by {
        lemma_enc_injective(w, v);
    }
}

/// Round-trip through the element stream: linearization loses nothing, so
/// `into_elements` followed by `into_value` returns the value it started
/// from.
pub proof fn lemma_stream_round_trip(v: SpecValue)
    ensures
        forall|w: SpecValue| elems_of(w) == elems_of(v) ==> w == v,
{
    assert forall|w: SpecValue| elems_of(w) == elems_of(v) implies w == v by {
        lemma_elems_injective(w, v);
    }
}

/// Encoding is deterministic: equal in-memory state, dictionary order
/// included, gives byte-identical output, since `encode` returns exactly
/// `spec_enc` of the value's abstraction.
pub proof fn lemma_encode_deterministic(v: SpecValue, w: SpecValue)
    requires
        v == w,
    ensures
        spec_enc(v) == spec_enc(w),
{
}

/// Ordered-map equivalence: two sorted entry sequences carrying the same
/// pairs, with no key repeated, are the same sequence and encode to the
/// same bytes. With `ensure_order`'s contract this makes any two insertion
/// orders of one pair multiset agree after canonicalization.
pub proof fn lemma_canonical_form_unique(
    x: Seq<(Seq<u8>, SpecValue)>,
    y: Seq<(Seq<u8>, SpecValue)>,
)
    requires
        sorted_by_keys(x),
        sorted_by_keys(y),
        distinct_keys(x),
        x.to_multiset() == y.to_multiset(),
    ensures
        x == y,
        spec_enc(SpecValue::Dict(x)) == spec_enc(SpecValue::Dict(y)),
    decreases x.len(),
{
    broadcast use group_multiset_axioms;
    broadcast use group_to_multiset_ensures;

    if x.len() == 0 || y.len() == 0 {
        assert(x.to_multiset().len() == x.len());
        assert(y.to_multiset().len() == y.len());
        assert(x =~= y);
    } else {
        assert(y.to_multiset().contains(y[0]));
        assert(x.to_multiset().contains(y[0]));
        assert(x.contains(y[0]));
        let i = choose|i: int| 0 <= i < x.len() && x[i] == y[0];
        assert(x.to_multiset().contains(x[0]));
        assert(y.to_multiset().contains(x[0]));
        assert(y.contains(x[0]));
        let j = choose|j: int| 0 <= j < y.len() && y[j] == x[0];
        assert(lex_le(x[0].0, x[i].0) || i == 0);
        assert(lex_le(y[0].0, y[j].0) || j == 0);
        assert(lex_le(x[0].0, y[0].0) || i == 0);
        assert(lex_le(y[0].0, x[0].0) || j == 0);
        lemma_lex_le_total(x[0].0, y[0].0);
        assert(x[0].0 == y[0].0);
        assert(x[0] == y[0]) by {
            if i != 0 {
                assert(x[i].0 == x[0].0);
                assert(false);
            }
        }
        assert(x.drop_first() =~= x.remove(0));
        assert(y.drop_first() =~= y.remove(0));
        assert(x.remove(0).to_multiset() =~= x.to_multiset().remove(x[0]));
        assert(y.remove(0).to_multiset() =~= y.to_multiset().remove(y[0]));
        assert(x.drop_first().to_multiset() =~= x.to_multiset().remove(x[0]));
        assert(y.drop_first().to_multiset() =~= y.to_multiset().remove(y[0]));
        assert(sorted_by_keys(x.drop_first())) by {
            assert(forall|m: int|
                0 <= m < x.len() - 1 ==> #[trigger] x.drop_first()[m] == x[m + 1]);
        }
        assert(sorted_by_keys(y.drop_first())) by {
            assert(forall|m: int|
                0 <= m < y.len() - 1 ==> #[trigger] y.drop_first()[m] == y[m + 1]);
        }
        assert(distinct_keys(x.drop_first())) by {
            assert(forall|m: int|
                0 <= m < x.len() - 1 ==> #[trigger] x.drop_first()[m] == x[m + 1]);
        }
        lemma_canonical_form_unique(x.drop_first(), y.drop_first());
        assert(x =~= y) by {
            assert(forall|m: int|
                1 <= m < x.len() ==> #[trigger] x[m] == x.drop_first()[m - 1]);
            assert(forall|m: int|
                1 <= m < y.len() ==> #[trigger] y[m] == y.drop_first()[m - 1]);
        }
    }
}

/// A run inside the left part is a run inside the whole.
proof fn lemma_sub_left(b: Seq<u8>, x: Seq<u8>, y: Seq<u8>)
    requires
        is_subrange_of(b, x),
    ensures
        is_subrange_of(b, x + y),
{
    let off = choose|off: int|
        0 <= off && off + b.len() <= x.len() && #[trigger] x.subrange(off, off + b.len()) == b;
    assert((x + y).subrange(off, off + b.len() as int) =~= b);
}

/// A run inside the right part is a run inside the whole.
proof fn lemma_sub_right(b: Seq<u8>, x: Seq<u8>, y: Seq<u8>)
    requires
        is_subrange_of(b, y),
    ensures
        is_subrange_of(b, x + y),
{
    let off = choose|off: int|
        0 <= off && off + b.len() <= y.len() && #[trigger] y.subrange(off, off + b.len()) == b;
    assert((x + y).subrange(x.len() as int + off, x.len() + off + b.len() as int) =~= b);
}

/// The byte-string wire form carries the bytes themselves as one run.
proof fn lemma_sub_enc_bytes(b: Seq<u8>)
    ensures
        is_subrange_of(b, enc_bytes(b)),
{
    let d = spec_digits(b.len());
    lemma_spec_digits(b.len());
    assert(enc_bytes(b).subrange(d.len() as int + 1, d.len() + 1 + b.len() as int) =~= b);
}

/// Zero copy: every byte-string token of a value's stream appears, byte
/// for byte, as one contiguous run of the value's wire form. Together with
/// the parser's contract, every `Bytes` element of a successful parse
/// equals a contiguous piece of the input buffer.
pub proof fn lemma_zero_copy(v: SpecValue, k: int)
    requires
        0 <= k < elems_of(v).len(),
    ensures
        match elems_of(v)[k] {
            SpecElem::Bytes(b) => is_subrange_of(b, spec_enc(v)),
            _ => true,
        },
    decreases v,
{
    match v {
        SpecValue::Bytes(b) => {
            assert(elems_of(v) =~= seq![SpecElem::Bytes(b)]);
            lemma_sub_enc_bytes(b);
        },
        SpecValue::Int(_) => {},
        SpecValue::List(vs) => {
            if k > 0 {
                lemma_zero_copy_seq(vs, k - 1);
                match elems_of_seq(vs)[k - 1] {
                    SpecElem::Bytes(b) => {
                        lemma_sub_right(b, seq![108u8], enc_seq(vs));
                        lemma_sub_left(b, seq![108u8] + enc_seq(vs), seq![101u8]);
                        assert(spec_enc(v) == seq![108u8] + enc_seq(vs) + seq![101u8]);
                    },
                    _ => {},
                }
            }
        },
        SpecValue::Dict(ps) => {
            if k > 0 {
                lemma_zero_copy_pairs(ps, k - 1);
                match elems_of_pairs(ps)[k - 1] {
                    SpecElem::Bytes(b) => {
                        lemma_sub_right(b, seq![100u8], enc_pairs(ps));
                        lemma_sub_left(b, seq![100u8] + enc_pairs(ps), seq![101u8]);
                        assert(spec_enc(v) == seq![100u8] + enc_pairs(ps) + seq![101u8]);
                    },
                    _ => {},
                }
            }
        },
    }
}

/// Zero copy, over the items of a list body.
proof fn lemma_zero_copy_seq(vs: Seq<SpecValue>, k: int)
    requires
        0 <= k < elems_of_seq(vs).len(),
    ensures
        match elems_of_seq(vs)[k] {
            SpecElem::Bytes(b) => is_subrange_of(b, enc_seq(vs)),
            _ => true,
        },
    decreases vs,
{
    let head = elems_of(vs[0]);
    assert(elems_of_seq(vs) == head + elems_of_seq(vs.drop_first()));
    assert(enc_seq(vs) == spec_enc(vs[0]) + enc_seq(vs.drop_first()));
    if k < head.len() {
        lemma_zero_copy(vs[0], k);
        assert(elems_of_seq(vs)[k] == head[k]);
        match head[k] {
            SpecElem::Bytes(b) => {
                lemma_sub_left(b, spec_enc(vs[0]), enc_seq(vs.drop_first()));
            },
            _ => {},
        }
    } else {
        lemma_zero_copy_seq(vs.drop_first(), k - head.len());
        assert(elems_of_seq(vs)[k] == elems_of_seq(vs.drop_first())[k - head.len()]);
        match elems_of_seq(vs)[k] {
            SpecElem::Bytes(b) => {
                lemma_sub_right(b, spec_enc(vs[0]), enc_seq(vs.drop_first()));
            },
            _ => {},
        }
    }
}

/// Zero copy, over the pairs of a dictionary body: keys included.
proof fn lemma_zero_copy_pairs(ps: Seq<(Seq<u8>, SpecValue)>, k: int)
    requires
        0 <= k < elems_of_pairs(ps).len(),
    ensures
        match elems_of_pairs(ps)[k] {
            SpecElem::Bytes(b) => is_subrange_of(b, enc_pairs(ps)),
            _ => true,
        },
    decreases ps,
{
    let vals = elems_of(ps[0].1);
    assert(elems_of_pairs(ps) == seq![SpecElem::Bytes(ps[0].0)] + vals + elems_of_pairs(
        ps.drop_first(),
    ));
    assert(enc_pairs(ps) == enc_bytes(ps[0].0) + spec_enc(ps[0].1) + enc_pairs(
        ps.drop_first(),
    ));
    if k == 0 {
        lemma_sub_enc_bytes(ps[0].0);
        lemma_sub_left(ps[0].0, enc_bytes(ps[0].0), spec_enc(ps[0].1));
        lemma_sub_left(ps[0].0, enc_bytes(ps[0].0) + spec_enc(ps[0].1), enc_pairs(
            ps.drop_first(),
        ));
    } else if k < 1 + vals.len() {
        lemma_zero_copy(ps[0].1, k - 1);
        assert(elems_of_pairs(ps)[k] == vals[k - 1]);
        match vals[k - 1] {
            SpecElem::Bytes(b) => {
                lemma_sub_right(b, enc_bytes(ps[0].0), spec_enc(ps[0].1));
                lemma_sub_left(b, enc_bytes(ps[0].0) + spec_enc(ps[0].1), enc_pairs(
                    ps.drop_first(),
                ));
            },
            _ => {},
        }
    } else {
        lemma_zero_copy_pairs(ps.drop_first(), k - 1 - vals.len());
        assert(elems_of_pairs(ps)[k] == elems_of_pairs(ps.drop_first())[k - 1 - vals.len()]);
        match elems_of_pairs(ps)[k] {
            SpecElem::Bytes(b) => {
                lemma_sub_right(b, enc_bytes(ps[0].0) + spec_enc(ps[0].1), enc_pairs(
                    ps.drop_first(),
                ));
            },
            _ => {},
        }
    }
}

} // verus!
