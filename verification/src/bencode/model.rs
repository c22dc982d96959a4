//! The mathematical model of the codec: abstract values, abstract element
//! streams, and the byte encoding that the parser and the encoder are
//! specified against.

use vstd::prelude::*;

verus! {

/// An abstract bencoded value. Dictionaries are sequences of key/value
/// pairs in insertion order; nothing here forces the keys sorted or unique,
/// canonicalization is a separate step.
pub enum SpecValue {
    Bytes(Seq<u8>),
    Int(i64),
    List(Seq<SpecValue>),
    Dict(Seq<(Seq<u8>, SpecValue)>),
}

/// An abstract token of the flat, pre-order element stream.
pub enum SpecElem {
    DictBegin(int),
    ListBegin(int),
    Int(i64),
    Bytes(Seq<u8>),
}

/// Decimal ASCII digits of `n`, most significant first, no leading zeros.
pub open spec fn spec_digits(n: nat) -> Seq<u8>
    decreases n,
{
    if n < 10 {
        seq![(48 + n) as u8]
    } else {
        spec_digits(n / 10) + seq![(48 + n % 10) as u8]
    }
}

/// Decimal ASCII of a signed integer: an optional `-`, then the digits of
/// the magnitude.
pub open spec fn spec_int_digits(i: int) -> Seq<u8> {
    if i < 0 {
        seq![45u8] + spec_digits((-i) as nat)
    } else {
        spec_digits(i as nat)
    }
}

/// Wire form of a byte string: decimal length, `:`, the bytes themselves.
pub open spec fn enc_bytes(b: Seq<u8>) -> Seq<u8> {
    spec_digits(b.len()) + seq![58u8] + b
}

/// Wire form of a value. Dictionaries are emitted in the order their pairs
/// stand in; the encoder never sorts.
pub open spec fn spec_enc(v: SpecValue) -> Seq<u8>
    decreases v,
{
    match v {
        SpecValue::Bytes(b) => enc_bytes(b),
        SpecValue::Int(i) => seq![105u8] + spec_int_digits(i as int) + seq![101u8],
        SpecValue::List(vs) => seq![108u8] + enc_seq(vs) + seq![101u8],
        SpecValue::Dict(ps) => seq![100u8] + enc_pairs(ps) + seq![101u8],
    }
}

/// Concatenated wire forms of the values of a list body.
pub open spec fn enc_seq(vs: Seq<SpecValue>) -> Seq<u8>
    decreases vs,
{
    if vs.len() == 0 {
        Seq::empty()
    } else {
        spec_enc(vs[0]) + enc_seq(vs.drop_first())
    }
}

/// Concatenated wire forms of the key/value pairs of a dictionary body.
pub open spec fn enc_pairs(ps: Seq<(Seq<u8>, SpecValue)>) -> Seq<u8>
    decreases ps,
{
    if ps.len() == 0 {
        Seq::empty()
    } else {
        enc_bytes(ps[0].0) + spec_enc(ps[0].1) + enc_pairs(ps.drop_first())
    }
}

/// Flat pre-order element stream of a value; container tokens carry their
/// child counts and the end markers are implicit.
pub open spec fn elems_of(v: SpecValue) -> Seq<SpecElem>
    decreases v,
{
    match v {
        SpecValue::Bytes(b) => seq![SpecElem::Bytes(b)],
        SpecValue::Int(i) => seq![SpecElem::Int(i)],
        SpecValue::List(vs) => seq![SpecElem::ListBegin(vs.len() as int)] + elems_of_seq(vs),
        SpecValue::Dict(ps) => seq![SpecElem::DictBegin(ps.len() as int)] + elems_of_pairs(ps),
    }
}

/// Concatenated element streams of the values of a list body.
pub open spec fn elems_of_seq(vs: Seq<SpecValue>) -> Seq<SpecElem>
    decreases vs,
{
    if vs.len() == 0 {
        Seq::empty()
    } else {
        elems_of(vs[0]) + elems_of_seq(vs.drop_first())
    }
}

/// Concatenated element streams of the pairs of a dictionary body: each key
/// as a bytes token, then the value's stream.
pub open spec fn elems_of_pairs(ps: Seq<(Seq<u8>, SpecValue)>) -> Seq<SpecElem>
    decreases ps,
{
    if ps.len() == 0 {
        Seq::empty()
    } else {
        seq![SpecElem::Bytes(ps[0].0)] + elems_of(ps[0].1) + elems_of_pairs(ps.drop_first())
    }
}

/// An ASCII decimal digit.
pub open spec fn is_digit(b: u8) -> bool {
    48 <= b <= 57
}

/// Every byte of `s` is an ASCII decimal digit.
pub open spec fn all_digits(s: Seq<u8>) -> bool {
    forall|i: int| 0 <= i < s.len() ==> is_digit(#[trigger] s[i])
}

/// The number a digit sequence denotes, read most significant first.
pub open spec fn digits_val(s: Seq<u8>) -> nat
    decreases s.len(),
{
    if s.len() == 0 {
        0
    } else {
        digits_val(s.drop_last()) * 10 + (if s.last() >= 48 {
            (s.last() - 48) as nat
        } else {
            0
        })
    }
}

/// A digit run in the only form the wire admits: nonempty, digits only, and
/// no leading zero unless it is the single digit `0`.
pub open spec fn canonical_digits(s: Seq<u8>) -> bool {
    &&& s.len() >= 1
    &&& all_digits(s)
    &&& (s[0] != 48 || s.len() == 1)
}

/// `p` stands at the front of `s`. Kept opaque: proofs go through the
/// dedicated prefix lemmas rather than the raw subrange equality.
#[verifier::opaque]
pub open spec fn is_prefix_of(p: Seq<u8>, s: Seq<u8>) -> bool {
    p.len() <= s.len() && p == s.subrange(0, p.len() as int)
}

/// `b` appears as one contiguous run inside `s`.
pub open spec fn is_subrange_of(b: Seq<u8>, s: Seq<u8>) -> bool {
    exists|off: int|
        0 <= off && off + b.len() <= s.len() && #[trigger] s.subrange(off, off + b.len()) == b
}

/// Some value has exactly this wire form.
pub open spec fn accepts(s: Seq<u8>) -> bool {
    exists|v: SpecValue| spec_enc(v) == s
}

/// Some value's wire form stands at the front of `s`.
pub open spec fn has_value_prefix(s: Seq<u8>) -> bool {
    exists|v: SpecValue| is_prefix_of(spec_enc(v), s)
}

/// A list body takes at least two bytes per item.
pub proof fn lemma_enc_seq_min_len(vs: Seq<SpecValue>)
    ensures
        enc_seq(vs).len() >= 2 * vs.len(),
    decreases vs,
{
    if vs.len() > 0 {
        crate::bencode::unique::lemma_enc_shape(vs[0]);
        lemma_enc_seq_min_len(vs.drop_first());
    }
}

/// A dictionary body takes at least four bytes per pair.
pub proof fn lemma_enc_pairs_min_len(ps: Seq<(Seq<u8>, SpecValue)>)
    ensures
        enc_pairs(ps).len() >= 4 * ps.len(),
    decreases ps,
{
    if ps.len() > 0 {
        crate::bencode::unique::lemma_enc_bytes_shape(ps[0].0);
        crate::bencode::unique::lemma_enc_shape(ps[0].1);
        lemma_enc_pairs_min_len(ps.drop_first());
    }
}

} // verus!

verus! {

/// The digits of a number are digits, start without a zero unless the
/// number is zero, and denote the number itself.
pub proof fn lemma_spec_digits(n: nat)
    ensures
        spec_digits(n).len() >= 1,
        all_digits(spec_digits(n)),
        spec_digits(n)[0] == 48 <==> n == 0,
        digits_val(spec_digits(n)) == n,
        canonical_digits(spec_digits(n)),
    decreases n,
{
    vstd::arithmetic::div_mod::lemma_fundamental_div_mod(n as int, 10);
    if n < 10 {
        assert(spec_digits(n) == seq![(48 + n) as u8]);
        assert(spec_digits(n).drop_last() =~= Seq::<u8>::empty());
        assert(digits_val(spec_digits(n)) == digits_val(Seq::<u8>::empty()) * 10 + n);
    } else {
        lemma_spec_digits(n / 10);
        let d = spec_digits(n / 10);
        let s = spec_digits(n);
        assert(s == d + seq![(48 + n % 10) as u8]);
        assert(s.drop_last() =~= d);
        assert(s.last() == (48 + n % 10) as u8);
        assert(forall|i: int| 0 <= i < s.len() ==> is_digit(#[trigger] s[i])) by {
            assert(forall|i: int| 0 <= i < d.len() ==> s[i] == #[trigger] d[i]);
        }
        assert(digits_val(s) == (n / 10) * 10 + n % 10);
        assert(n / 10 > 0) by {
            vstd::arithmetic::div_mod::lemma_div_is_ordered_by_denominator(n as int, 1, 10);
        }
    }
}

/// A canonical digit run denotes a positive number unless it is `0`, and is
/// exactly the digit string of what it denotes.
pub proof fn lemma_canonical_digits(s: Seq<u8>)
    requires
        canonical_digits(s),
    ensures
        spec_digits(digits_val(s)) == s,
        digits_val(s) >= 1 || s == seq![48u8],
    decreases s.len(),
{
    let v = digits_val(s);
    let d = (s.last() - 48) as nat;
    if s.len() == 1 {
        assert(s.drop_last() =~= Seq::<u8>::empty());
        assert(v == digits_val(Seq::<u8>::empty()) * 10 + d);
        assert(v == d && d < 10);
        assert(spec_digits(v) =~= s);
        if s[0] == 48 {
            assert(s =~= seq![48u8]);
        }
    } else {
        let s0 = s.drop_last();
        assert(canonical_digits(s0)) by {
            assert(forall|i: int| 0 <= i < s0.len() ==> s0[i] == #[trigger] s[i]);
        }
        lemma_canonical_digits(s0);
        let v0 = digits_val(s0);
        assert(v0 >= 1) by {
            if v0 == 0 {
                assert(s0 == seq![48u8]);
                assert(s[0] == 48 && s.len() != 1);
            }
        }
        assert(v == v0 * 10 + d);
        assert(v >= 10) by (nonlinear_arith)
            requires
                v == v0 * 10 + d,
                v0 >= 1,
                d >= 0,
        {
        }
        vstd::arithmetic::div_mod::lemma_fundamental_div_mod_converse(
            v as int,
            10,
            v0 as int,
            d as int,
        );
        assert(v / 10 == v0 && v % 10 == d);
        assert(spec_digits(v) == spec_digits(v0) + seq![(48 + d) as u8]);
        assert((48 + d) as u8 == s.last());
        assert(spec_digits(v) =~= s);
    }
}

/// The signed digit string: never empty, never holds the terminator `e`,
/// and starts with `-` exactly for a negative number.
pub proof fn lemma_spec_int_digits(i: int)
    ensures
        spec_int_digits(i).len() >= 1,
        forall|k: int|
            0 <= k < spec_int_digits(i).len()
                ==> (is_digit(#[trigger] spec_int_digits(i)[k]) || spec_int_digits(i)[k] == 45),
        spec_int_digits(i)[0] == 45 <==> i < 0,
        i >= 0 ==> spec_int_digits(i) == spec_digits(i as nat),
        i < 0 ==> spec_int_digits(i) == seq![45u8] + spec_digits((-i) as nat),
{
    if i < 0 {
        lemma_spec_digits((-i) as nat);
        let d = spec_digits((-i) as nat);
        let s = spec_int_digits(i);
        assert(s == seq![45u8] + d);
        assert(forall|k: int| 0 <= k < d.len() ==> s[k + 1] == #[trigger] d[k]);
        assert(forall|k: int|
            1 <= k < s.len() ==> is_digit(#[trigger] s[k]) || s[k] == 45) by {
            assert(forall|k: int| 1 <= k < s.len() ==> s[k] == #[trigger] d[k - 1]);
        }
    } else {
        lemma_spec_digits(i as nat);
        assert(spec_digits(i as nat)[0] != 45);
    }
}

/// Peeling one value off the items of a list body.
pub proof fn lemma_enc_seq_step(vs: Seq<SpecValue>, k: int)
    requires
        0 <= k < vs.len(),
    ensures
        enc_seq(vs.skip(k)) == spec_enc(vs[k]) + enc_seq(vs.skip(k + 1)),
{
    let s = vs.skip(k);
    assert(s[0] == vs[k]);
    assert(s.drop_first() =~= vs.skip(k + 1));
}

/// Peeling one pair off the body of a dictionary.
pub proof fn lemma_enc_pairs_step(ps: Seq<(Seq<u8>, SpecValue)>, k: int)
    requires
        0 <= k < ps.len(),
    ensures
        enc_pairs(ps.skip(k)) == enc_bytes(ps[k].0) + spec_enc(ps[k].1) + enc_pairs(
            ps.skip(k + 1),
        ),
{
    let s = ps.skip(k);
    assert(s[0] == ps[k]);
    assert(s.drop_first() =~= ps.skip(k + 1));
    assert(enc_bytes(s[0].0) + spec_enc(s[0].1) + enc_pairs(s.drop_first()) == enc_bytes(
        ps[k].0,
    ) + spec_enc(ps[k].1) + enc_pairs(ps.skip(k + 1)));
}

/// Peeling one value off the element stream of a list body.
pub proof fn lemma_elems_seq_step(vs: Seq<SpecValue>, k: int)
    requires
        0 <= k < vs.len(),
    ensures
        elems_of_seq(vs.skip(k)) == elems_of(vs[k]) + elems_of_seq(vs.skip(k + 1)),
{
    let s = vs.skip(k);
    assert(s[0] == vs[k]);
    assert(s.drop_first() =~= vs.skip(k + 1));
}

/// Peeling one pair off the element stream of a dictionary body.
pub proof fn lemma_elems_pairs_step(ps: Seq<(Seq<u8>, SpecValue)>, k: int)
    requires
        0 <= k < ps.len(),
    ensures
        elems_of_pairs(ps.skip(k)) == seq![SpecElem::Bytes(ps[k].0)] + elems_of(ps[k].1)
            + elems_of_pairs(ps.skip(k + 1)),
{
    let s = ps.skip(k);
    assert(s[0] == ps[k]);
    assert(s.drop_first() =~= ps.skip(k + 1));
    assert(seq![SpecElem::Bytes(s[0].0)] + elems_of(s[0].1) + elems_of_pairs(s.drop_first())
        == seq![SpecElem::Bytes(ps[k].0)] + elems_of(ps[k].1) + elems_of_pairs(ps.skip(k + 1)));
}

/// Appending one value extends the body encoding at the end.
pub proof fn lemma_enc_seq_snoc(vs: Seq<SpecValue>, v: SpecValue)
    ensures
        enc_seq(vs.push(v)) == enc_seq(vs) + spec_enc(v),
    decreases vs,
{
    if vs.len() == 0 {
        assert(vs.push(v)[0] == v);
        assert(vs.push(v).drop_first() =~= Seq::<SpecValue>::empty());
        assert(enc_seq(vs.push(v)) == spec_enc(v) + enc_seq(Seq::<SpecValue>::empty()));
        assert(enc_seq(Seq::<SpecValue>::empty()) == Seq::<u8>::empty());
        assert(enc_seq(vs) == Seq::<u8>::empty());
        assert(enc_seq(vs.push(v)) =~= enc_seq(vs) + spec_enc(v));
    } else {
        lemma_enc_seq_snoc(vs.drop_first(), v);
        assert(vs.push(v)[0] == vs[0]);
        assert(vs.push(v).drop_first() =~= vs.drop_first().push(v));
        assert(enc_seq(vs.push(v)) == spec_enc(vs[0]) + enc_seq(vs.drop_first().push(v)));
        assert(enc_seq(vs.push(v)) == spec_enc(vs[0]) + (enc_seq(vs.drop_first())
            + spec_enc(v)));
        assert(enc_seq(vs) == spec_enc(vs[0]) + enc_seq(vs.drop_first()));
        assert(spec_enc(vs[0]) + (enc_seq(vs.drop_first()) + spec_enc(v)) =~= (spec_enc(vs[0])
            + enc_seq(vs.drop_first())) + spec_enc(v));
        assert(enc_seq(vs.push(v)) == enc_seq(vs) + spec_enc(v));
    }
}

/// Appending one pair extends the body encoding at the end.
pub proof fn lemma_enc_pairs_snoc(ps: Seq<(Seq<u8>, SpecValue)>, p: (Seq<u8>, SpecValue))
    ensures
        enc_pairs(ps.push(p)) == enc_pairs(ps) + enc_bytes(p.0) + spec_enc(p.1),
    decreases ps,
{
    if ps.len() == 0 {
        assert(ps.push(p)[0] == p);
        assert(ps.push(p).drop_first() =~= Seq::<(Seq<u8>, SpecValue)>::empty());
        assert(enc_pairs(ps.push(p)) == enc_bytes(p.0) + spec_enc(p.1) + enc_pairs(
            Seq::<(Seq<u8>, SpecValue)>::empty(),
        ));
        assert(enc_pairs(Seq::<(Seq<u8>, SpecValue)>::empty()) == Seq::<u8>::empty());
        assert(enc_pairs(ps) == Seq::<u8>::empty());
        assert(enc_pairs(ps.push(p)) =~= enc_pairs(ps) + enc_bytes(p.0) + spec_enc(p.1));
    } else {
        lemma_enc_pairs_snoc(ps.drop_first(), p);
        assert(ps.push(p)[0] == ps[0]);
        assert(ps.push(p).drop_first() =~= ps.drop_first().push(p));
        assert(enc_pairs(ps.push(p)) == enc_bytes(ps[0].0) + spec_enc(ps[0].1) + enc_pairs(
            ps.drop_first().push(p),
        ));
        assert(enc_pairs(ps.push(p)) == enc_bytes(ps[0].0) + spec_enc(ps[0].1) + (enc_pairs(
            ps.drop_first(),
        ) + enc_bytes(p.0) + spec_enc(p.1)));
        assert(enc_pairs(ps) == enc_bytes(ps[0].0) + spec_enc(ps[0].1) + enc_pairs(
            ps.drop_first(),
        ));
        assert(enc_bytes(ps[0].0) + spec_enc(ps[0].1) + (enc_pairs(ps.drop_first())
            + enc_bytes(p.0) + spec_enc(p.1)) =~= ((enc_bytes(ps[0].0) + spec_enc(ps[0].1)
            + enc_pairs(ps.drop_first())) + enc_bytes(p.0)) + spec_enc(p.1));
        assert(enc_pairs(ps.push(p)) == enc_pairs(ps) + enc_bytes(p.0) + spec_enc(p.1));
    }
}

/// Appending one value extends the element stream at the end.
pub proof fn lemma_elems_seq_snoc(vs: Seq<SpecValue>, v: SpecValue)
    ensures
        elems_of_seq(vs.push(v)) == elems_of_seq(vs) + elems_of(v),
    decreases vs,
{
    if vs.len() == 0 {
        assert(vs.push(v)[0] == v);
        assert(vs.push(v).drop_first() =~= Seq::<SpecValue>::empty());
        assert(elems_of_seq(vs.push(v)) == elems_of(v) + elems_of_seq(
            Seq::<SpecValue>::empty(),
        ));
        assert(elems_of_seq(Seq::<SpecValue>::empty()) == Seq::<SpecElem>::empty());
        assert(elems_of_seq(vs) == Seq::<SpecElem>::empty());
        assert(elems_of_seq(vs.push(v)) =~= elems_of_seq(vs) + elems_of(v));
    } else {
        lemma_elems_seq_snoc(vs.drop_first(), v);
        assert(vs.push(v)[0] == vs[0]);
        assert(vs.push(v).drop_first() =~= vs.drop_first().push(v));
        assert(elems_of_seq(vs.push(v)) == elems_of(vs[0]) + elems_of_seq(
            vs.drop_first().push(v),
        ));
        assert(elems_of_seq(vs.push(v)) == elems_of(vs[0]) + (elems_of_seq(vs.drop_first())
            + elems_of(v)));
        assert(elems_of_seq(vs) == elems_of(vs[0]) + elems_of_seq(vs.drop_first()));
        assert(elems_of(vs[0]) + (elems_of_seq(vs.drop_first()) + elems_of(v)) =~= (elems_of(
            vs[0],
        ) + elems_of_seq(vs.drop_first())) + elems_of(v));
        assert(elems_of_seq(vs.push(v)) == elems_of_seq(vs) + elems_of(v));
    }
}

/// Appending one pair extends the element stream at the end.
pub proof fn lemma_elems_pairs_snoc(ps: Seq<(Seq<u8>, SpecValue)>, p: (Seq<u8>, SpecValue))
    ensures
        elems_of_pairs(ps.push(p)) == elems_of_pairs(ps) + seq![SpecElem::Bytes(p.0)]
            + elems_of(p.1),
    decreases ps,
{
    if ps.len() == 0 {
        assert(ps.push(p)[0] == p);
        assert(ps.push(p).drop_first() =~= Seq::<(Seq<u8>, SpecValue)>::empty());
        assert(elems_of_pairs(ps.push(p)) == seq![SpecElem::Bytes(p.0)] + elems_of(p.1)
            + elems_of_pairs(Seq::<(Seq<u8>, SpecValue)>::empty()));
        assert(elems_of_pairs(Seq::<(Seq<u8>, SpecValue)>::empty()) == Seq::<SpecElem>::empty());
        assert(elems_of_pairs(ps) == Seq::<SpecElem>::empty());
        assert(elems_of_pairs(ps.push(p)) =~= elems_of_pairs(ps) + seq![SpecElem::Bytes(p.0)]
            + elems_of(p.1));
    } else {
        lemma_elems_pairs_snoc(ps.drop_first(), p);
        assert(ps.push(p)[0] == ps[0]);
        assert(ps.push(p).drop_first() =~= ps.drop_first().push(p));
        assert(elems_of_pairs(ps.push(p)) == seq![SpecElem::Bytes(ps[0].0)] + elems_of(ps[0].1)
            + elems_of_pairs(ps.drop_first().push(p)));
        assert(elems_of_pairs(ps.push(p)) == seq![SpecElem::Bytes(ps[0].0)] + elems_of(ps[0].1)
            + (elems_of_pairs(ps.drop_first()) + seq![SpecElem::Bytes(p.0)] + elems_of(p.1)));
        assert(elems_of_pairs(ps) == seq![SpecElem::Bytes(ps[0].0)] + elems_of(ps[0].1)
            + elems_of_pairs(ps.drop_first()));
        assert(seq![SpecElem::Bytes(ps[0].0)] + elems_of(ps[0].1) + (elems_of_pairs(
            ps.drop_first(),
        ) + seq![SpecElem::Bytes(p.0)] + elems_of(p.1)) =~= ((seq![SpecElem::Bytes(ps[0].0)]
            + elems_of(ps[0].1) + elems_of_pairs(ps.drop_first())) + seq![SpecElem::Bytes(p.0)])
            + elems_of(p.1));
        assert(elems_of_pairs(ps.push(p)) == elems_of_pairs(ps) + seq![SpecElem::Bytes(p.0)]
            + elems_of(p.1));
    }
}

} // verus!
