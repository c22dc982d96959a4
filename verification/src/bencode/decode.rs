//! The validating parser: consumes a complete byte buffer and emits the
//! flat element stream of the single value it holds, rejecting malformed
//! or non-canonical input.

use vstd::prelude::*;

use crate::bencode::model::{
    accepts, all_digits, canonical_digits, digits_val, elems_of, elems_of_pairs, elems_of_seq,
    enc_bytes, enc_pairs, enc_seq, has_value_prefix, is_digit, is_prefix_of,
    lemma_canonical_digits, lemma_elems_pairs_snoc, lemma_elems_seq_snoc,
    lemma_enc_pairs_min_len, lemma_enc_pairs_snoc, lemma_enc_seq_min_len, lemma_enc_seq_snoc,
    lemma_spec_digits, lemma_spec_int_digits, spec_digits, spec_enc, spec_int_digits, SpecElem,
    SpecValue,
};
use crate::bencode::repr::{
    lemma_view_elems, lemma_view_elems_push, lemma_view_elems_update,
};
use crate::bencode::unique::{
    lemma_concat_prefix, lemma_enc_bytes_prefix_free, lemma_enc_bytes_shape,
    lemma_enc_prefix_free, lemma_enc_shape, lemma_prefix_concat, lemma_prefix_facts,
    lemma_split_eq,
};
use crate::bencode::repr::{view_elems, Element, Elements, Error};
use vstd::slice::{slice_subrange, slice_to_vec, spec_slice_len};

verus! {

/// Relies on `memchr::memchr`: the index of the first occurrence of
/// `needle`, or nothing when the byte is absent.
#[verifier::external_body]
fn find_byte(haystack: &[u8], needle: u8) -> (r: Option<usize>)
    ensures
        match r {
            Some(i) => i < haystack@.len() && haystack@[i as int] == needle && forall|j: int|
                0 <= j < i ==> haystack@[j] != needle,
            None => forall|j: int| 0 <= j < haystack@.len() ==> haystack@[j] != needle,
        },
{
    memchr::memchr(needle, haystack)
}

/// Reads a canonical decimal digit run as a `usize`: every byte a digit,
/// no leading zero unless the run is just `0`, value in range.
fn parse_decimal_usize(s: &[u8]) -> (r: Option<usize>)
    ensures
        r is Some <==> canonical_digits(s@) && digits_val(s@) <= usize::MAX,
        r matches Some(n) ==> n as nat == digits_val(s@),
{
    if s.len() == 0 {
        return None;
    }
    if s[0] == 48 && s.len() != 1 {
        return None;
    }
    let mut n: usize = 0;
    let mut j: usize = 0;
    while j < s.len()
        invariant
            j <= s@.len(),
            s@.len() >= 1,
            s@[0] != 48 || s@.len() == 1,
            all_digits(s@.take(j as int)),
            n as nat == digits_val(s@.take(j as int)),
        decreases s@.len() - j,
    {
        let d = s[j];
        if d < 48 || d > 57 {
            return None;
        }
        let digit = (d - 48) as usize;
        if n > (usize::MAX - digit) / 10 {
            proof {
                lemma_step_value(s@, j as int, n as nat, digit as nat);
                vstd::arithmetic::div_mod::lemma_fundamental_div_mod(
                    (usize::MAX - digit) as int,
                    10,
                );
                assert(n as nat * 10 + digit > usize::MAX) by (nonlinear_arith)
                    requires
                        n as nat >= ((usize::MAX - digit) as nat) / 10 + 1,
                        ((usize::MAX - digit) as nat) >= (((usize::MAX - digit) as nat) / 10) * 10,
                        digit < 10,
                {
                }
                lemma_digits_val_grows(s@, j as int + 1);
            }
            return None;
        }
        proof {
            lemma_step_value(s@, j as int, n as nat, digit as nat);
            vstd::arithmetic::div_mod::lemma_fundamental_div_mod((usize::MAX - digit) as int, 10);
            assert(n as nat * 10 + digit <= usize::MAX) by (nonlinear_arith)
                requires
                    n as nat <= ((usize::MAX - digit) as nat) / 10,
                    ((usize::MAX - digit) as nat) < (((usize::MAX - digit) as nat) / 10) * 10 + 10,
                    digit < 10,
            {
            }
        }
        n = n * 10 + digit;
        j = j + 1;
    }
    proof {
        assert(s@.take(j as int) =~= s@);
    }
    Some(n)
}

/// One more digit multiplies the prefix value by ten and adds it.
proof fn lemma_step_value(s: Seq<u8>, j: int, n: nat, digit: nat)
    requires
        0 <= j < s.len(),
        n == digits_val(s.take(j)),
        is_digit(s[j]),
        digit == s[j] - 48,
    ensures
        digits_val(s.take(j + 1)) == n * 10 + digit,
{
    let t = s.take(j + 1);
    assert(t.drop_last() =~= s.take(j));
    assert(t.last() == s[j]);
}

/// A longer digit run never denotes a smaller number.
proof fn lemma_digits_val_grows(s: Seq<u8>, k: int)
    requires
        0 <= k <= s.len(),
    ensures
        digits_val(s) >= digits_val(s.take(k)),
    decreases s.len() - k,
{
    if k == s.len() {
        assert(s.take(k) =~= s);
    } else {
        lemma_digits_val_grows(s, k + 1);
        let t = s.take(k + 1);
        assert(t.drop_last() =~= s.take(k));
        let d = if t.last() >= 48 {
            (t.last() - 48) as nat
        } else {
            0
        };
        assert(digits_val(s.take(k + 1)) == digits_val(s.take(k)) * 10 + d);
        assert(digits_val(s.take(k)) * 10 >= digits_val(s.take(k))) by (nonlinear_arith);
    }
}

/// Reads a canonical decimal digit run as a `u64`.
fn parse_decimal_u64(s: &[u8]) -> (r: Option<u64>)
    ensures
        r is Some <==> canonical_digits(s@) && digits_val(s@) <= u64::MAX,
        r matches Some(n) ==> n as nat == digits_val(s@),
{
    if s.len() == 0 {
        return None;
    }
    if s[0] == 48 && s.len() != 1 {
        return None;
    }
    let mut n: u64 = 0;
    let mut j: usize = 0;
    while j < s.len()
        invariant
            j <= s@.len(),
            s@.len() >= 1,
            s@[0] != 48 || s@.len() == 1,
            all_digits(s@.take(j as int)),
            n as nat == digits_val(s@.take(j as int)),
        decreases s@.len() - j,
    {
        let d = s[j];
        if d < 48 || d > 57 {
            return None;
        }
        let digit = (d - 48) as u64;
        if n > (u64::MAX - digit) / 10 {
            proof {
                lemma_step_value(s@, j as int, n as nat, digit as nat);
                vstd::arithmetic::div_mod::lemma_fundamental_div_mod((u64::MAX - digit) as int, 10);
                assert(n as nat * 10 + digit > u64::MAX) by (nonlinear_arith)
                    requires
                        n as nat >= ((u64::MAX - digit) as nat) / 10 + 1,
                        ((u64::MAX - digit) as nat) >= (((u64::MAX - digit) as nat) / 10) * 10,
                        digit < 10,
                {
                }
                lemma_digits_val_grows(s@, j as int + 1);
            }
            return None;
        }
        proof {
            lemma_step_value(s@, j as int, n as nat, digit as nat);
            vstd::arithmetic::div_mod::lemma_fundamental_div_mod((u64::MAX - digit) as int, 10);
            assert(n as nat * 10 + digit <= u64::MAX) by (nonlinear_arith)
                requires
                    n as nat <= ((u64::MAX - digit) as nat) / 10,
                    ((u64::MAX - digit) as nat) < (((u64::MAX - digit) as nat) / 10) * 10 + 10,
                    digit < 10,
            {
            }
        }
        n = n * 10 + digit;
        j = j + 1;
    }
    proof {
        assert(s@.take(j as int) =~= s@);
    }
    Some(n)
}

/// No byte-string wire form stands at the front of `s`.
spec fn no_string_prefix(s: Seq<u8>) -> bool {
    forall|bs: Seq<u8>| !is_prefix_of(enc_bytes(bs), s)
}

/// No integer wire form stands at the front of `s`.
spec fn no_int_prefix(s: Seq<u8>) -> bool {
    forall|n: i64| !is_prefix_of(spec_enc(SpecValue::Int(n)), s)
}

/// No list wire form stands at the front of `s`.
spec fn no_list_prefix(s: Seq<u8>) -> bool {
    forall|vs: Seq<SpecValue>| !is_prefix_of(spec_enc(SpecValue::List(vs)), s)
}

/// No dictionary wire form stands at the front of `s`.
spec fn no_dict_prefix(s: Seq<u8>) -> bool {
    forall|ps: Seq<(Seq<u8>, SpecValue)>| !is_prefix_of(spec_enc(SpecValue::Dict(ps)), s)
}

/// No wire form at all stands at the front of `s`.
spec fn no_value_prefix(s: Seq<u8>) -> bool {
    forall|v: SpecValue| !is_prefix_of(spec_enc(v), s)
}

/// A front part of a front part, split off again.
proof fn lemma_prefix_unconcat(a: Seq<u8>, b: Seq<u8>, s: Seq<u8>)
    requires
        is_prefix_of(a + b, s),
    ensures
        is_prefix_of(a, s),
        is_prefix_of(b, s.skip(a.len() as int)),
        forall|j: int| 0 <= j < a.len() ==> a[j] == s[j],
{
    lemma_prefix_facts(a + b, s);
    reveal(is_prefix_of);
    assert((a + b).len() == a.len() + b.len());
    assert(forall|j: int| 0 <= j < a.len() + b.len() ==> (a + b)[j] == #[trigger] s[j]);
    assert(a =~= s.subrange(0, a.len() as int));
    assert(b =~= s.skip(a.len() as int).subrange(0, b.len() as int));
}

/// A stop-terminated body at the front of `s` runs exactly to the first
/// occurrence of the stop byte.
proof fn lemma_stops_at(rem: Seq<u8>, i: int, body: Seq<u8>, stop: u8)
    requires
        0 <= i < rem.len(),
        rem[i] == stop,
        forall|j: int| 0 <= j < i ==> rem[j] != stop,
        is_prefix_of(body + seq![stop], rem),
        forall|j: int| 0 <= j < body.len() ==> body[j] != stop,
    ensures
        body == rem.take(i),
        body.len() == i,
{
    lemma_prefix_facts(body + seq![stop], rem);
    assert((body + seq![stop]).len() == body.len() + 1);
    assert(forall|j: int|
        0 <= j < body.len() + 1 ==> (body + seq![stop])[j] == #[trigger] rem[j]);
    assert(rem[body.len() as int] == stop);
    if body.len() < i {
        assert(false);
    }
    if body.len() > i {
        assert(body[i] == rem[i]);
        assert(false);
    }
    assert(body =~= rem.take(i));
}

/// The streaming parser: an immutable input slice, a cursor into it, and
/// the flat element vector being accumulated.
pub struct Parser<'a> {
    input: &'a [u8],
    pos: usize,
    elements: Vec<Element>,
}

impl<'a> Parser<'a> {
    /// The whole input this parser was given.
    pub closed spec fn src(self) -> Seq<u8> {
        self.input@
    }

    /// The cursor has not run past the end.
    pub closed spec fn wf(self) -> bool {
        self.pos <= self.input@.len()
    }

    /// What is left to consume.
    pub closed spec fn remaining(self) -> Seq<u8> {
        self.input@.skip(self.pos as int)
    }

    /// The token stream accumulated so far.
    pub closed spec fn toks(self) -> Seq<SpecElem> {
        view_elems(self.elements@)
    }

    /// A parser at the start of `input` with nothing accumulated.
    pub fn new(input: &'a [u8]) -> (r: Self)
        ensures
            r.wf(),
            r.src() == input@,
            r.remaining() == input@,
            r.toks() == Seq::<SpecElem>::empty(),
    {
        let r = Self { input, pos: 0, elements: Vec::new() };
        proof {
            assert(r.remaining() =~= input@);
        }
        r
    }

    /// Position at end of input.
    fn is_done(&self) -> (r: bool)
        requires
            self.wf(),
        ensures
            r == (self.remaining().len() == 0),
    {
        self.pos == self.input.len()
    }

    /// Next byte, if any, without advancing.
    fn peek(&self) -> (r: Option<u8>)
        requires
            self.wf(),
        ensures
            match r {
                Some(b) => self.remaining().len() > 0 && b == self.remaining()[0],
                None => self.remaining().len() == 0,
            },
    {
        if self.pos < self.input.len() {
            Some(self.input[self.pos])
        } else {
            None
        }
    }

    /// The cursor stands on the end marker `e`.
    fn at_end_marker(&self) -> (r: bool)
        requires
            self.wf(),
        ensures
            r == (self.remaining().len() > 0 && self.remaining()[0] == 101),
    {
        self.pos < self.input.len() && self.input[self.pos] == 101
    }

    /// Consumes one byte or reports that the input ended.
    fn bump(&mut self) -> (r: Result<u8, Error>)
        requires
            old(self).wf(),
        ensures
            final(self).wf(),
            final(self).input == old(self).input,
            final(self).elements == old(self).elements,
            r is Ok <==> old(self).remaining().len() > 0,
            match r {
                Ok(b) => {
                    &&& b == old(self).remaining()[0]
                    &&& final(self).remaining() == old(self).remaining().drop_first()
                },
                Err(e) => {
                    &&& *final(self) == *old(self)
                    &&& e matches Error::UnexpectedEnd(_)
                },
            },
    {
        if self.pos < self.input.len() {
            let b = self.input[self.pos];
            self.pos = self.pos + 1;
            proof {
                assert(self.remaining() =~= old(self).remaining().drop_first());
            }
            Ok(b)
        } else {
            Err(Error::UnexpectedEnd("bump".to_owned()))
        }
    }

    /// Consumes one byte that is known to be there.
    fn bump_assert(&mut self)
        requires
            old(self).wf(),
            old(self).remaining().len() > 0,
        ensures
            final(self).wf(),
            final(self).input == old(self).input,
            final(self).elements == old(self).elements,
            final(self).remaining() == old(self).remaining().drop_first(),
    {
        let _res = self.bump();
    }

    /// The bytes up to, not including, the first `b`; the cursor advances
    /// onto `b`. Fails when `b` never comes.
    fn take_until(&mut self, b: u8) -> (r: Result<&'a [u8], Error>)
        requires
            old(self).wf(),
        ensures
            final(self).wf(),
            final(self).input == old(self).input,
            final(self).elements == old(self).elements,
            match r {
                Ok(h) => {
                    let i = h@.len() as int;
                    &&& i < old(self).remaining().len()
                    &&& h@ == old(self).remaining().take(i)
                    &&& old(self).remaining()[i] == b
                    &&& forall|j: int| 0 <= j < i ==> old(self).remaining()[j] != b
                    &&& final(self).remaining() == old(self).remaining().skip(i)
                },
                Err(e) => {
                    &&& *final(self) == *old(self)
                    &&& e == Error::ExpectedByte(b)
                    &&& forall|j: int|
                        0 <= j < old(self).remaining().len() ==> old(self).remaining()[j] != b
                },
            },
    {
        let rest = slice_subrange(self.input, self.pos, self.input.len());
        proof {
            assert(rest@ =~= self.remaining());
        }
        match find_byte(rest, b) {
            Some(i) => {
                let head = slice_subrange(rest, 0, i);
                self.pos = self.pos + i;
                proof {
                    assert(head@ =~= old(self).remaining().take(i as int));
                    assert(self.remaining() =~= old(self).remaining().skip(i as int));
                }
                Ok(head)
            },
            None => Err(Error::ExpectedByte(b)),
        }
    }

    /// Exactly `n` bytes, or a report that fewer are left.
    fn take_n(&mut self, n: usize) -> (r: Result<&'a [u8], Error>)
        requires
            old(self).wf(),
        ensures
            final(self).wf(),
            final(self).input == old(self).input,
            final(self).elements == old(self).elements,
            r is Ok <==> n <= old(self).remaining().len(),
            match r {
                Ok(h) => {
                    &&& h@ == old(self).remaining().take(n as int)
                    &&& final(self).remaining() == old(self).remaining().skip(n as int)
                },
                Err(e) => {
                    &&& *final(self) == *old(self)
                    &&& e matches Error::UnexpectedEnd(_)
                },
            },
    {
        if n <= self.input.len() - self.pos {
            let head = slice_subrange(self.input, self.pos, self.pos + n);
            self.pos = self.pos + n;
            proof {
                assert(head@ =~= old(self).remaining().take(n as int));
                assert(self.remaining() =~= old(self).remaining().skip(n as int));
            }
            Ok(head)
        } else {
            Err(Error::UnexpectedEnd("take_n".to_owned()))
        }
    }

    /// One byte string: decimal length, `:`, that many raw bytes. On
    /// success the string's bytes join the element stream; on failure no
    /// byte-string wire form stood at the cursor.
    fn parse_string(&mut self) -> (r: Result<Ghost<Seq<u8>>, Error>)
        requires
            old(self).wf(),
        ensures
            final(self).wf(),
            final(self).input == old(self).input,
            final(self).elements@.len() >= old(self).elements@.len(),
            final(self).elements@.subrange(0, old(self).elements@.len() as int)
                == old(self).elements@,
            match r {
                Ok(g) => {
                    &&& old(self).remaining() == enc_bytes(g@) + final(self).remaining()
                    &&& final(self).toks() == old(self).toks() + seq![SpecElem::Bytes(g@)]
                    &&& final(self).remaining().len() < old(self).remaining().len()
                },
                Err(e) => {
                    &&& no_string_prefix(old(self).remaining())
                    &&& !(e matches Error::Trailing)
                },
            },
    {
        let ghost rem0 = self.remaining();
        let len_bytes = match self.take_until(58) {
            Ok(h) => h,
            Err(e) => {
                proof {
                    assert forall|bs: Seq<u8>| !is_prefix_of(enc_bytes(bs), rem0) by {
                        if is_prefix_of(enc_bytes(bs), rem0) {
                            let d = spec_digits(bs.len());
                            lemma_prefix_facts(enc_bytes(bs), rem0);
                            assert(enc_bytes(bs) =~= (d + seq![58u8]) + bs);
                            lemma_prefix_unconcat(d + seq![58u8], bs, rem0);
                            assert(rem0[d.len() as int] == 58);
                        }
                    }
                }
                return Err(e);
            },
        };
        let ghost i = len_bytes@.len() as int;
        self.bump_assert();
        let ghost rem1 = self.remaining();
        proof {
            assert(rem1 =~= rem0.skip(i + 1));
        }
        let n = match parse_decimal_usize(len_bytes) {
            Some(n) => n,
            None => {
                proof {
                    self.lemma_string_candidates(rem0, i);
                    assert(rem0.len() <= usize::MAX) by {
                        assert(spec_slice_len(old(self).input) == old(self).input@.len());
                    }
                    assert forall|bs: Seq<u8>| !is_prefix_of(enc_bytes(bs), rem0) by {
                        if is_prefix_of(enc_bytes(bs), rem0) {
                            lemma_spec_digits(bs.len());
                            assert(spec_digits(bs.len()) == rem0.take(i));
                            assert(canonical_digits(len_bytes@));
                            assert(digits_val(len_bytes@) == bs.len());
                            assert(enc_bytes(bs).len() == i + 1 + bs.len());
                            assert(bs.len() <= usize::MAX);
                            assert(false);
                        }
                    }
                }
                return Err(Error::InvalidInt(slice_to_vec(len_bytes)));
            },
        };
        let payload = match self.take_n(n) {
            Ok(h) => h,
            Err(e) => {
                proof {
                    self.lemma_string_candidates(rem0, i);
                    assert forall|bs: Seq<u8>| !is_prefix_of(enc_bytes(bs), rem0) by {
                        if is_prefix_of(enc_bytes(bs), rem0) {
                            lemma_spec_digits(bs.len());
                            assert(spec_digits(bs.len()) == rem0.take(i));
                            assert(digits_val(len_bytes@) == bs.len());
                            assert(bs.len() == n);
                            assert(enc_bytes(bs).len() == i + 1 + n);
                            assert(rem1.len() == rem0.len() - i - 1);
                            assert(n > rem1.len());
                            assert(false);
                        }
                    }
                }
                return Err(e);
            },
        };
        proof {
            assert(n as nat == digits_val(len_bytes@));
            lemma_canonical_digits(len_bytes@);
            assert(spec_digits(n as nat) == len_bytes@);
        }
        let owned = slice_to_vec(payload);
        let ghost eg = Element::Bytes(owned);
        self.elements.push(Element::Bytes(owned));
        proof {
            lemma_view_elems_push(old(self).elements@, eg);
            assert(payload@.len() == n);
            assert(enc_bytes(payload@) == len_bytes@ + seq![58u8] + payload@);
            assert(payload@ =~= rem1.take(n as int));
            assert(self.remaining() =~= rem1.skip(n as int));
            assert(old(self).remaining() =~= enc_bytes(payload@) + self.remaining());
            assert(self.elements@.subrange(0, old(self).elements@.len() as int)
                =~= old(self).elements@);
        }
        Ok(Ghost(payload@))
    }

    /// Any byte-string wire form at `rem0` has its digit run exactly up to
    /// the first colon, with the value and room the payload then needs.
    proof fn lemma_string_candidates(self, rem0: Seq<u8>, i: int)
        requires
            0 <= i < rem0.len(),
            rem0[i] == 58,
            forall|j: int| 0 <= j < i ==> rem0[j] != 58,
        ensures
            forall|bs: Seq<u8>|
                is_prefix_of(enc_bytes(bs), rem0) ==> spec_digits(bs.len()) == rem0.take(i)
                    && i + 1 + bs.len() <= rem0.len(),
    {
        assert forall|bs: Seq<u8>|
            is_prefix_of(enc_bytes(bs), rem0) implies spec_digits(bs.len()) == rem0.take(i) && i
            + 1 + bs.len() <= rem0.len() by {
            let d = spec_digits(bs.len());
            lemma_spec_digits(bs.len());
            lemma_prefix_facts(enc_bytes(bs), rem0);
            assert(enc_bytes(bs) =~= (d + seq![58u8]) + bs);
            lemma_prefix_unconcat(d + seq![58u8], bs, rem0);
            lemma_stops_at(rem0, i, d, 58);
            assert(enc_bytes(bs).len() == i + 1 + bs.len());
        }
    }

    /// Any integer wire form at `rem0` has its signed body running exactly
    /// to the first `e` after the opening `i`.
    proof fn lemma_int_candidates(self, rem0: Seq<u8>, rem1: Seq<u8>, ib: int)
        requires
            rem0.len() > 0,
            rem0[0] == 105,
            rem1 == rem0.drop_first(),
            0 <= ib < rem1.len(),
            rem1[ib] == 101,
            forall|j: int| 0 <= j < ib ==> rem1[j] != 101,
        ensures
            forall|n: i64|
                is_prefix_of(spec_enc(SpecValue::Int(n)), rem0) ==> spec_int_digits(n as int)
                    == rem1.take(ib),
    {
        assert forall|n: i64|
            is_prefix_of(spec_enc(SpecValue::Int(n)), rem0) implies spec_int_digits(n as int)
            == rem1.take(ib) by {
            let body = spec_int_digits(n as int);
            lemma_spec_int_digits(n as int);
            lemma_prefix_facts(spec_enc(SpecValue::Int(n)), rem0);
            assert(spec_enc(SpecValue::Int(n)) =~= seq![105u8] + (body + seq![101u8]));
            lemma_prefix_unconcat(seq![105u8], body + seq![101u8], rem0);
            assert(rem0.skip(1) =~= rem1);
            assert(forall|j: int| 0 <= j < body.len() ==> body[j] != 101);
            lemma_stops_at(rem1, ib, body, 101);
        }
    }

    /// One integer: `i`, a canonical signed decimal body, `e`. On success
    /// the number joins the element stream; on failure no integer wire
    /// form stood at the cursor.
    fn parse_int(&mut self) -> (r: Result<Ghost<i64>, Error>)
        requires
            old(self).wf(),
            old(self).remaining().len() > 0,
            old(self).remaining()[0] == 105,
        ensures
            final(self).wf(),
            final(self).input == old(self).input,
            final(self).elements@.len() >= old(self).elements@.len(),
            final(self).elements@.subrange(0, old(self).elements@.len() as int)
                == old(self).elements@,
            match r {
                Ok(g) => {
                    &&& old(self).remaining() == spec_enc(SpecValue::Int(g@))
                        + final(self).remaining()
                    &&& final(self).toks() == old(self).toks() + seq![SpecElem::Int(g@)]
                    &&& final(self).remaining().len() < old(self).remaining().len()
                },
                Err(e) => {
                    &&& no_int_prefix(old(self).remaining())
                    &&& !(e matches Error::Trailing)
                },
            },
    {
        let ghost rem0 = self.remaining();
        self.bump_assert();
        let ghost rem1 = self.remaining();
        let body = match self.take_until(101) {
            Ok(h) => h,
            Err(e) => {
                proof {
                    assert forall|n: i64|
                        !is_prefix_of(spec_enc(SpecValue::Int(n)), rem0) by {
                        if is_prefix_of(spec_enc(SpecValue::Int(n)), rem0) {
                            let nbody = spec_int_digits(n as int);
                            lemma_spec_int_digits(n as int);
                            lemma_prefix_facts(spec_enc(SpecValue::Int(n)), rem0);
                            assert(spec_enc(SpecValue::Int(n)) =~= seq![105u8] + (nbody
                                + seq![101u8]));
                            lemma_prefix_unconcat(seq![105u8], nbody + seq![101u8], rem0);
                            assert(rem0.skip(1) =~= rem1);
                            lemma_prefix_facts(nbody + seq![101u8], rem1);
                            assert(rem1[nbody.len() as int] == 101);
                        }
                    }
                }
                return Err(e);
            },
        };
        let ghost ib = body@.len() as int;
        proof {
            self.lemma_int_candidates(rem0, rem1, ib);
        }
        self.bump_assert();
        let ghost rem2 = self.remaining();
        if body.len() >= 2 && body[0] == 45 && body[1] == 48 {
            proof {
                assert forall|n: i64| !is_prefix_of(spec_enc(SpecValue::Int(n)), rem0) by {
                    if is_prefix_of(spec_enc(SpecValue::Int(n)), rem0) {
                        lemma_spec_int_digits(n as int);
                        assert(spec_int_digits(n as int) == body@);
                        assert(body@[0] == 45);
                        assert(n < 0);
                        lemma_spec_digits((-(n as int)) as nat);
                        assert(body@[1] == spec_digits((-(n as int)) as nat)[0]);
                        assert(-(n as int) == 0);
                        assert(false);
                    }
                }
            }
            return Err(Error::InvalidInt(slice_to_vec(body)));
        }
        if body.len() >= 2 && body[0] == 48 {
            proof {
                assert forall|n: i64| !is_prefix_of(spec_enc(SpecValue::Int(n)), rem0) by {
                    if is_prefix_of(spec_enc(SpecValue::Int(n)), rem0) {
                        lemma_spec_int_digits(n as int);
                        assert(spec_int_digits(n as int) == body@);
                        assert(n >= 0);
                        lemma_spec_digits(n as nat);
                        assert(n == 0);
                        assert(body@.len() == 1);
                        assert(false);
                    }
                }
            }
            return Err(Error::InvalidInt(slice_to_vec(body)));
        }
        let value: i64;
        if body.len() >= 1 && body[0] == 45 {
            let mag_slice = slice_subrange(body, 1, body.len());
            proof {
                assert(mag_slice@ =~= body@.skip(1));
            }
            let mag = match parse_decimal_u64(mag_slice) {
                Some(m) => m,
                None => {
                    proof {
                        assert forall|n: i64|
                            !is_prefix_of(spec_enc(SpecValue::Int(n)), rem0) by {
                            if is_prefix_of(spec_enc(SpecValue::Int(n)), rem0) {
                                lemma_spec_int_digits(n as int);
                                assert(spec_int_digits(n as int) == body@);
                                assert(n < 0);
                                let m = (-(n as int)) as nat;
                                lemma_spec_digits(m);
                                assert(mag_slice@ =~= spec_digits(m));
                                assert(digits_val(mag_slice@) == m);
                                assert(m <= 9223372036854775808);
                                assert(false);
                            }
                        }
                    }
                    return Err(Error::InvalidInt(slice_to_vec(body)));
                },
            };
            if mag > 9223372036854775808u64 {
                proof {
                    assert forall|n: i64|
                        !is_prefix_of(spec_enc(SpecValue::Int(n)), rem0) by {
                        if is_prefix_of(spec_enc(SpecValue::Int(n)), rem0) {
                            lemma_spec_int_digits(n as int);
                            assert(spec_int_digits(n as int) == body@);
                            assert(n < 0);
                            let m = (-(n as int)) as nat;
                            lemma_spec_digits(m);
                            assert(mag_slice@ =~= spec_digits(m));
                            assert(digits_val(mag_slice@) == m);
                            assert(false);
                        }
                    }
                }
                return Err(Error::InvalidInt(slice_to_vec(body)));
            }
            proof {
                lemma_canonical_digits(mag_slice@);
                assert(mag_slice@[0] == body@[1]);
                assert(mag_slice@[0] != 48);
                assert(mag >= 1);
            }
            value = -((mag - 1) as i64) - 1;
            proof {
                assert(value as int == -(mag as int));
                assert(spec_int_digits(value as int) == seq![45u8] + spec_digits(mag as nat)) by {
                    lemma_spec_int_digits(value as int);
                }
                assert(spec_digits(mag as nat) == mag_slice@);
                assert(spec_int_digits(value as int) =~= body@);
            }
        } else {
            let m = match parse_decimal_u64(body) {
                Some(m) => m,
                None => {
                    proof {
                        assert forall|n: i64|
                            !is_prefix_of(spec_enc(SpecValue::Int(n)), rem0) by {
                            if is_prefix_of(spec_enc(SpecValue::Int(n)), rem0) {
                                lemma_spec_int_digits(n as int);
                                assert(spec_int_digits(n as int) == body@);
                                assert(body@.len() >= 1);
                                assert(n >= 0);
                                lemma_spec_digits(n as nat);
                                assert(body@ =~= spec_digits(n as nat));
                                assert(digits_val(body@) == n as nat);
                                assert(false);
                            }
                        }
                    }
                    return Err(Error::InvalidInt(slice_to_vec(body)));
                },
            };
            if m > 9223372036854775807u64 {
                proof {
                    assert forall|n: i64|
                        !is_prefix_of(spec_enc(SpecValue::Int(n)), rem0) by {
                        if is_prefix_of(spec_enc(SpecValue::Int(n)), rem0) {
                            lemma_spec_int_digits(n as int);
                            assert(spec_int_digits(n as int) == body@);
                            assert(n >= 0);
                            lemma_spec_digits(n as nat);
                            assert(body@ =~= spec_digits(n as nat));
                            assert(digits_val(body@) == n as nat);
                            assert(false);
                        }
                    }
                }
                return Err(Error::InvalidInt(slice_to_vec(body)));
            }
            value = m as i64;
            proof {
                lemma_canonical_digits(body@);
                lemma_spec_int_digits(value as int);
                assert(spec_digits(digits_val(body@)) == body@);
                assert(spec_int_digits(value as int) =~= body@);
            }
        }
        let ghost eg = Element::Int(value);
        self.elements.push(Element::Int(value));
        proof {
            lemma_view_elems_push(old(self).elements@, eg);
            assert(rem1 =~= body@ + seq![101u8] + rem2);
            assert(old(self).remaining() =~= spec_enc(SpecValue::Int(value)) + self.remaining());
            assert(self.elements@.subrange(0, old(self).elements@.len() as int)
                =~= old(self).elements@);
        }
        Ok(Ghost(value))
    }

    /// Unpacking a list wire form at `rem0`: its body and terminator make
    /// up the tail after the opening `l`.
    proof fn lemma_list_candidate(self, rem0: Seq<u8>, ws: Seq<SpecValue>)
        requires
            rem0.len() > 0,
            rem0[0] == 108,
            is_prefix_of(spec_enc(SpecValue::List(ws)), rem0),
        ensures
            enc_seq(ws) + seq![101u8] + rem0.skip(spec_enc(SpecValue::List(ws)).len() as int)
                == rem0.drop_first(),
    {
        let e = spec_enc(SpecValue::List(ws));
        lemma_prefix_facts(e, rem0);
        lemma_prefix_concat(e, rem0);
        let rest = rem0.skip(e.len() as int);
        assert(seq![108u8] + (enc_seq(ws) + seq![101u8] + rest) =~= e + rest);
        assert(rem0 =~= seq![108u8] + rem0.drop_first());
        lemma_split_eq(
            seq![108u8],
            enc_seq(ws) + seq![101u8] + rest,
            seq![108u8],
            rem0.drop_first(),
        );
    }

    /// Unpacking a dictionary wire form at `rem0`.
    proof fn lemma_dict_candidate(self, rem0: Seq<u8>, qs: Seq<(Seq<u8>, SpecValue)>)
        requires
            rem0.len() > 0,
            rem0[0] == 100,
            is_prefix_of(spec_enc(SpecValue::Dict(qs)), rem0),
        ensures
            enc_pairs(qs) + seq![101u8] + rem0.skip(spec_enc(SpecValue::Dict(qs)).len() as int)
                == rem0.drop_first(),
    {
        let e = spec_enc(SpecValue::Dict(qs));
        lemma_prefix_facts(e, rem0);
        lemma_prefix_concat(e, rem0);
        let rest = rem0.skip(e.len() as int);
        assert(seq![100u8] + (enc_pairs(qs) + seq![101u8] + rest) =~= e + rest);
        assert(rem0 =~= seq![100u8] + rem0.drop_first());
        lemma_split_eq(
            seq![100u8],
            enc_pairs(qs) + seq![101u8] + rest,
            seq![100u8],
            rem0.drop_first(),
        );
    }

    /// One list: `l`, each child value in order, `e`. The child count is
    /// patched into the placeholder token once the tally is known.
    #[verifier::loop_isolation(false)]
    #[verifier::rlimit(100)]
    fn parse_list(&mut self) -> (r: Result<Ghost<SpecValue>, Error>)
        requires
            old(self).wf(),
            old(self).remaining().len() > 0,
            old(self).remaining()[0] == 108,
        ensures
            final(self).wf(),
            final(self).input == old(self).input,
            final(self).elements@.len() >= old(self).elements@.len(),
            final(self).elements@.subrange(0, old(self).elements@.len() as int)
                == old(self).elements@,
            match r {
                Ok(g) => {
                    &&& g@ matches SpecValue::List(_)
                    &&& old(self).remaining() == spec_enc(g@) + final(self).remaining()
                    &&& final(self).toks() == old(self).toks() + elems_of(g@)
                    &&& final(self).remaining().len() < old(self).remaining().len()
                },
                Err(e) => {
                    &&& no_list_prefix(old(self).remaining())
                    &&& !(e matches Error::Trailing)
                },
            },
        decreases old(self).remaining().len(), 0int,
    {
        let ghost rem0 = self.remaining();
        let ghost toks0 = self.toks();
        let ghost elems0 = self.elements@;
        self.bump_assert();
        let ghost s0 = self.remaining();
        proof {
            assert(s0 == rem0.drop_first());
            assert(rem0.len() <= usize::MAX) by {
                assert(spec_slice_len(old(self).input) == old(self).input@.len());
            }
        }
        let header_idx = self.elements.len();
        self.elements.push(Element::ListBegin(0));
        proof {
            lemma_view_elems_push(elems0, Element::ListBegin(0));
            lemma_view_elems(elems0);
        }
        let mut ct: usize = 0;
        let ghost mut acc: Seq<SpecValue> = Seq::empty();
        proof {
            assert forall|ws: Seq<SpecValue>|
                #[trigger] is_prefix_of(spec_enc(SpecValue::List(ws)), rem0) implies {
                let rest = rem0.skip(spec_enc(SpecValue::List(ws)).len() as int);
                ws.len() >= acc.len() && ws.take(acc.len() as int) == acc && enc_seq(
                    ws.skip(acc.len() as int),
                ) + seq![101u8] + rest == self.remaining()
            } by {
                self.lemma_list_candidate(rem0, ws);
                assert(ws.take(0) =~= acc);
                assert(ws.skip(0) =~= ws);
            }
        }
        while !self.at_end_marker()
            invariant
                self.wf(),
                self.input == old(self).input,
                ct as int == acc.len(),
                header_idx == elems0.len(),
                self.elements@.len() > header_idx,
                self.elements@.subrange(0, header_idx as int) == elems0,
                self.elements@[header_idx as int] == Element::ListBegin(0),
                self.toks() == toks0 + seq![SpecElem::ListBegin(0)] + elems_of_seq(acc),
                s0 == enc_seq(acc) + self.remaining(),
                self.remaining().len() + 1 <= rem0.len(),
                forall|ws: Seq<SpecValue>|
                    #[trigger] is_prefix_of(spec_enc(SpecValue::List(ws)), rem0) ==> {
                        let rest = rem0.skip(spec_enc(SpecValue::List(ws)).len() as int);
                        ws.len() >= acc.len() && ws.take(acc.len() as int) == acc && enc_seq(
                            ws.skip(acc.len() as int),
                        ) + seq![101u8] + rest == self.remaining()
                    },
            decreases self.remaining().len(),
        {
            let ghost cur = self.remaining();
            let ghost toks_before = self.toks();
            let ghost elements_before = self.elements@;
            let child = match self.parse_value() {
                Ok(g) => g,
                Err(e) => {
                    proof {
                        assert forall|ws: Seq<SpecValue>|
                            !is_prefix_of(spec_enc(SpecValue::List(ws)), rem0) by {
                            if is_prefix_of(spec_enc(SpecValue::List(ws)), rem0) {
                                let rest = rem0.skip(
                                    spec_enc(SpecValue::List(ws)).len() as int,
                                );
                                let ws2 = ws.skip(acc.len() as int);
                                assert(enc_seq(ws2) + seq![101u8] + rest == cur);
                                if ws2.len() == 0 {
                                    assert(cur =~= seq![101u8] + rest);
                                    assert(cur[0] == 101);
                                } else {
                                    assert(enc_seq(ws2) == spec_enc(ws2[0]) + enc_seq(
                                        ws2.drop_first(),
                                    ));
                                    assert(spec_enc(ws2[0]) + (enc_seq(ws2.drop_first())
                                        + seq![101u8] + rest) =~= enc_seq(ws2) + seq![101u8]
                                        + rest);
                                    lemma_concat_prefix(
                                        spec_enc(ws2[0]),
                                        enc_seq(ws2.drop_first()) + seq![101u8] + rest,
                                        cur,
                                    );
                                }
                            }
                        }
                    }
                    return Err(e);
                },
            };
            proof {
                let v = child@;
                let acc2 = acc.push(v);
                lemma_enc_seq_snoc(acc, v);
                lemma_elems_seq_snoc(acc, v);
                assert(s0 =~= enc_seq(acc2) + self.remaining());
                assert(self.toks() =~= toks0 + seq![SpecElem::ListBegin(0)] + elems_of_seq(
                    acc2,
                ));
                assert(self.elements@.subrange(0, header_idx as int) =~= elems0) by {
                    assert(self.elements@.subrange(0, elements_before.len() as int)
                        == elements_before);
                    assert(forall|j: int|
                        0 <= j < elements_before.len() ==> self.elements@[j]
                            == #[trigger] elements_before[j]);
                }
                assert(self.elements@[header_idx as int] == Element::ListBegin(0)) by {
                    assert(forall|j: int|
                        0 <= j < elements_before.len() ==> self.elements@[j]
                            == #[trigger] elements_before[j]);
                }
                assert forall|ws: Seq<SpecValue>|
                    #[trigger] is_prefix_of(spec_enc(SpecValue::List(ws)), rem0) implies {
                    let rest = rem0.skip(spec_enc(SpecValue::List(ws)).len() as int);
                    ws.len() >= acc2.len() && ws.take(acc2.len() as int) == acc2 && enc_seq(
                        ws.skip(acc2.len() as int),
                    ) + seq![101u8] + rest == self.remaining()
                } by {
                    let rest = rem0.skip(spec_enc(SpecValue::List(ws)).len() as int);
                    let k = acc.len() as int;
                    let ws2 = ws.skip(k);
                    assert(enc_seq(ws2) + seq![101u8] + rest == cur);
                    if ws2.len() == 0 {
                        assert(cur =~= seq![101u8] + rest);
                        assert(cur[0] == 101);
                        assert(false);
                    }
                    assert(enc_seq(ws2) == spec_enc(ws2[0]) + enc_seq(ws2.drop_first()));
                    assert(spec_enc(ws2[0]) + (enc_seq(ws2.drop_first()) + seq![101u8] + rest)
                        =~= enc_seq(ws2) + seq![101u8] + rest);
                    lemma_enc_prefix_free(
                        ws2[0],
                        v,
                        enc_seq(ws2.drop_first()) + seq![101u8] + rest,
                        self.remaining(),
                    );
                    assert(ws2[0] == v);
                    assert(ws2.drop_first() =~= ws.skip(k + 1));
                    assert(ws.take(k + 1) =~= acc2) by {
                        assert(ws.take(k)  =~= acc);
                        assert(ws[k] == ws2[0]);
                    }
                }
                lemma_enc_seq_min_len(acc2);
                assert(2 * acc2.len() <= s0.len());
                acc = acc2;
            }
            ct = ct + 1;
        }
        let ghost cur = self.remaining();
        self.bump_assert();
        let ghost pre_set = self.elements@;
        self.elements.set(header_idx, Element::ListBegin(ct));
        proof {
            let result = SpecValue::List(acc);
            assert(cur =~= seq![101u8] + cur.drop_first());
            assert(rem0 =~= spec_enc(result) + self.remaining()) by {
                assert(rem0 =~= seq![108u8] + s0);
                assert(s0 == enc_seq(acc) + cur);
                assert(self.remaining() == cur.drop_first());
            }
            let before_set = toks0 + seq![SpecElem::ListBegin(0)] + elems_of_seq(acc);
            lemma_view_elems_update(pre_set, header_idx as int, Element::ListBegin(ct));
            assert(self.toks() =~= toks0 + elems_of(result)) by {
                assert(view_elems(pre_set) == before_set);
                assert(self.toks() == before_set.update(
                    header_idx as int,
                    SpecElem::ListBegin(ct as int),
                ));
                assert(toks0.len() == header_idx);
                assert(elems_of(result) == seq![SpecElem::ListBegin(acc.len() as int)]
                    + elems_of_seq(acc));
            }
            assert(self.elements@.subrange(0, elems0.len() as int) =~= elems0);
        }
        Ok(Ghost(SpecValue::List(acc)))
    }

    /// One dictionary: `d`, then byte-string keys each followed by a value,
    /// then `e`. Key order is taken as it comes; nothing is sorted here.
    #[verifier::loop_isolation(false)]
    #[verifier::rlimit(100)]
    fn parse_dict(&mut self) -> (r: Result<Ghost<SpecValue>, Error>)
        requires
            old(self).wf(),
            old(self).remaining().len() > 0,
            old(self).remaining()[0] == 100,
        ensures
            final(self).wf(),
            final(self).input == old(self).input,
            final(self).elements@.len() >= old(self).elements@.len(),
            final(self).elements@.subrange(0, old(self).elements@.len() as int)
                == old(self).elements@,
            match r {
                Ok(g) => {
                    &&& g@ matches SpecValue::Dict(_)
                    &&& old(self).remaining() == spec_enc(g@) + final(self).remaining()
                    &&& final(self).toks() == old(self).toks() + elems_of(g@)
                    &&& final(self).remaining().len() < old(self).remaining().len()
                },
                Err(e) => {
                    &&& no_dict_prefix(old(self).remaining())
                    &&& !(e matches Error::Trailing)
                },
            },
        decreases old(self).remaining().len(), 0int,
    {
        let ghost rem0 = self.remaining();
        let ghost toks0 = self.toks();
        let ghost elems0 = self.elements@;
        self.bump_assert();
        let ghost s0 = self.remaining();
        proof {
            assert(s0 == rem0.drop_first());
            assert(rem0.len() <= usize::MAX) by {
                assert(spec_slice_len(old(self).input) == old(self).input@.len());
            }
        }
        let header_idx = self.elements.len();
        self.elements.push(Element::DictBegin(0));
        proof {
            lemma_view_elems_push(elems0, Element::DictBegin(0));
            lemma_view_elems(elems0);
        }
        let mut ct: usize = 0;
        let ghost mut acc: Seq<(Seq<u8>, SpecValue)> = Seq::empty();
        proof {
            assert forall|qs: Seq<(Seq<u8>, SpecValue)>|
                #[trigger] is_prefix_of(spec_enc(SpecValue::Dict(qs)), rem0) implies {
                let rest = rem0.skip(spec_enc(SpecValue::Dict(qs)).len() as int);
                qs.len() >= acc.len() && qs.take(acc.len() as int) == acc && enc_pairs(
                    qs.skip(acc.len() as int),
                ) + seq![101u8] + rest == self.remaining()
            } by {
                self.lemma_dict_candidate(rem0, qs);
                assert(qs.take(0) =~= acc);
                assert(qs.skip(0) =~= qs);
            }
        }
        while !self.at_end_marker()
            invariant
                self.wf(),
                self.input == old(self).input,
                ct as int == acc.len(),
                header_idx == elems0.len(),
                self.elements@.len() > header_idx,
                self.elements@.subrange(0, header_idx as int) == elems0,
                self.elements@[header_idx as int] == Element::DictBegin(0),
                self.toks() == toks0 + seq![SpecElem::DictBegin(0)] + elems_of_pairs(acc),
                s0 == enc_pairs(acc) + self.remaining(),
                self.remaining().len() + 1 <= rem0.len(),
                forall|qs: Seq<(Seq<u8>, SpecValue)>|
                    #[trigger] is_prefix_of(spec_enc(SpecValue::Dict(qs)), rem0) ==> {
                        let rest = rem0.skip(spec_enc(SpecValue::Dict(qs)).len() as int);
                        qs.len() >= acc.len() && qs.take(acc.len() as int) == acc && enc_pairs(
                            qs.skip(acc.len() as int),
                        ) + seq![101u8] + rest == self.remaining()
                    },
            decreases self.remaining().len(),
        {
            let ghost cur = self.remaining();
            let ghost elements_before = self.elements@;
            let key_ok = match self.peek() {
                Some(b) => 48 <= b && b <= 57,
                None => false,
            };
            if !key_ok {
                proof {
                    assert forall|qs: Seq<(Seq<u8>, SpecValue)>|
                        !is_prefix_of(spec_enc(SpecValue::Dict(qs)), rem0) by {
                        if is_prefix_of(spec_enc(SpecValue::Dict(qs)), rem0) {
                            let rest = rem0.skip(spec_enc(SpecValue::Dict(qs)).len() as int);
                            let qs2 = qs.skip(acc.len() as int);
                            assert(enc_pairs(qs2) + seq![101u8] + rest == cur);
                            if qs2.len() == 0 {
                                assert(cur =~= seq![101u8] + rest);
                                assert(cur[0] == 101);
                            } else {
                                lemma_enc_bytes_shape(qs2[0].0);
                                assert(enc_pairs(qs2) == enc_bytes(qs2[0].0) + spec_enc(
                                    qs2[0].1,
                                ) + enc_pairs(qs2.drop_first()));
                                assert(enc_bytes(qs2[0].0) + (spec_enc(qs2[0].1) + (enc_pairs(
                                    qs2.drop_first(),
                                ) + seq![101u8] + rest)) =~= enc_pairs(qs2) + seq![101u8]
                                    + rest);
                                lemma_concat_prefix(
                                    enc_bytes(qs2[0].0),
                                    spec_enc(qs2[0].1) + (enc_pairs(qs2.drop_first())
                                        + seq![101u8] + rest),
                                    cur,
                                );
                                lemma_prefix_facts(enc_bytes(qs2[0].0), cur);
                                assert(cur[0] == enc_bytes(qs2[0].0)[0]);
                            }
                        }
                    }
                }
                return Err(Error::UnexpectedEnd("value".to_owned()));
            }
            let key = match self.parse_string() {
                Ok(g) => g,
                Err(e) => {
                    proof {
                        assert forall|qs: Seq<(Seq<u8>, SpecValue)>|
                            !is_prefix_of(spec_enc(SpecValue::Dict(qs)), rem0) by {
                            if is_prefix_of(spec_enc(SpecValue::Dict(qs)), rem0) {
                                let rest = rem0.skip(
                                    spec_enc(SpecValue::Dict(qs)).len() as int,
                                );
                                let qs2 = qs.skip(acc.len() as int);
                                assert(enc_pairs(qs2) + seq![101u8] + rest == cur);
                                if qs2.len() == 0 {
                                    assert(cur =~= seq![101u8] + rest);
                                    assert(cur[0] == 101);
                                } else {
                                    assert(enc_pairs(qs2) == enc_bytes(qs2[0].0) + spec_enc(
                                        qs2[0].1,
                                    ) + enc_pairs(qs2.drop_first()));
                                    assert(enc_bytes(qs2[0].0) + (spec_enc(qs2[0].1)
                                        + (enc_pairs(qs2.drop_first()) + seq![101u8] + rest))
                                        =~= enc_pairs(qs2) + seq![101u8] + rest);
                                    lemma_concat_prefix(
                                        enc_bytes(qs2[0].0),
                                        spec_enc(qs2[0].1) + (enc_pairs(qs2.drop_first())
                                            + seq![101u8] + rest),
                                        cur,
                                    );
                                }
                            }
                        }
                    }
                    return Err(e);
                },
            };
            let ghost cur1 = self.remaining();
            let ghost toks_mid = self.toks();
            let ghost elements_mid = self.elements@;
            let value = match self.parse_value() {
                Ok(g) => g,
                Err(e) => {
                    proof {
                        assert forall|qs: Seq<(Seq<u8>, SpecValue)>|
                            !is_prefix_of(spec_enc(SpecValue::Dict(qs)), rem0) by {
                            if is_prefix_of(spec_enc(SpecValue::Dict(qs)), rem0) {
                                let rest = rem0.skip(
                                    spec_enc(SpecValue::Dict(qs)).len() as int,
                                );
                                let qs2 = qs.skip(acc.len() as int);
                                assert(enc_pairs(qs2) + seq![101u8] + rest == cur);
                                if qs2.len() == 0 {
                                    assert(cur =~= seq![101u8] + rest);
                                    assert(cur[0] == 101);
                                    assert(false);
                                }
                                assert(enc_pairs(qs2) == enc_bytes(qs2[0].0) + spec_enc(
                                    qs2[0].1,
                                ) + enc_pairs(qs2.drop_first()));
                                assert(enc_bytes(qs2[0].0) + (spec_enc(qs2[0].1) + (enc_pairs(
                                    qs2.drop_first(),
                                ) + seq![101u8] + rest)) =~= enc_pairs(qs2) + seq![101u8]
                                    + rest);
                                assert(enc_bytes(key@) + cur1 == cur);
                                lemma_enc_bytes_prefix_free(
                                    qs2[0].0,
                                    key@,
                                    spec_enc(qs2[0].1) + (enc_pairs(qs2.drop_first())
                                        + seq![101u8] + rest),
                                    cur1,
                                );
                                lemma_concat_prefix(
                                    spec_enc(qs2[0].1),
                                    enc_pairs(qs2.drop_first()) + seq![101u8] + rest,
                                    cur1,
                                );
                            }
                        }
                    }
                    return Err(e);
                },
            };
            proof {
                let pair = (key@, value@);
                let acc2 = acc.push(pair);
                lemma_enc_pairs_snoc(acc, pair);
                lemma_elems_pairs_snoc(acc, pair);
                assert(s0 =~= enc_pairs(acc2) + self.remaining());
                assert(self.toks() =~= toks0 + seq![SpecElem::DictBegin(0)] + elems_of_pairs(
                    acc2,
                )) by {
                    assert(toks_mid == toks0 + seq![SpecElem::DictBegin(0)] + elems_of_pairs(
                        acc,
                    ) + seq![SpecElem::Bytes(key@)]);
                    assert(self.toks() == toks_mid + elems_of(value@));
                }
                assert(self.elements@.subrange(0, header_idx as int) =~= elems0) by {
                    assert(forall|j: int|
                        0 <= j < elements_mid.len() ==> self.elements@[j]
                            == #[trigger] elements_mid[j]);
                    assert(forall|j: int|
                        0 <= j < elements_before.len() ==> elements_mid[j]
                            == #[trigger] elements_before[j]);
                }
                assert(self.elements@[header_idx as int] == Element::DictBegin(0)) by {
                    assert(forall|j: int|
                        0 <= j < elements_mid.len() ==> self.elements@[j]
                            == #[trigger] elements_mid[j]);
                    assert(forall|j: int|
                        0 <= j < elements_before.len() ==> elements_mid[j]
                            == #[trigger] elements_before[j]);
                }
                assert forall|qs: Seq<(Seq<u8>, SpecValue)>|
                    #[trigger] is_prefix_of(spec_enc(SpecValue::Dict(qs)), rem0) implies {
                    let rest = rem0.skip(spec_enc(SpecValue::Dict(qs)).len() as int);
                    qs.len() >= acc2.len() && qs.take(acc2.len() as int) == acc2 && enc_pairs(
                        qs.skip(acc2.len() as int),
                    ) + seq![101u8] + rest == self.remaining()
                } by {
                    let rest = rem0.skip(spec_enc(SpecValue::Dict(qs)).len() as int);
                    let k = acc.len() as int;
                    let qs2 = qs.skip(k);
                    assert(enc_pairs(qs2) + seq![101u8] + rest == cur);
                    if qs2.len() == 0 {
                        assert(cur =~= seq![101u8] + rest);
                        assert(cur[0] == 101);
                        assert(false);
                    }
                    assert(enc_pairs(qs2) == enc_bytes(qs2[0].0) + spec_enc(qs2[0].1)
                        + enc_pairs(qs2.drop_first()));
                    assert(enc_bytes(qs2[0].0) + (spec_enc(qs2[0].1) + (enc_pairs(
                        qs2.drop_first(),
                    ) + seq![101u8] + rest)) =~= enc_pairs(qs2) + seq![101u8] + rest);
                    assert(enc_bytes(key@) + cur1 == cur);
                    lemma_enc_bytes_prefix_free(
                        qs2[0].0,
                        key@,
                        spec_enc(qs2[0].1) + (enc_pairs(qs2.drop_first()) + seq![101u8]
                            + rest),
                        cur1,
                    );
                    assert(spec_enc(qs2[0].1) + (enc_pairs(qs2.drop_first()) + seq![101u8]
                        + rest) == cur1);
                    lemma_enc_prefix_free(
                        qs2[0].1,
                        value@,
                        enc_pairs(qs2.drop_first()) + seq![101u8] + rest,
                        self.remaining(),
                    );
                    assert(qs2[0] == pair);
                    assert(qs2.drop_first() =~= qs.skip(k + 1));
                    assert(qs.take(k + 1) =~= acc2) by {
                        assert(qs.take(k) =~= acc);
                        assert(qs[k] == qs2[0]);
                    }
                }
                lemma_enc_pairs_min_len(acc2);
                assert(4 * acc2.len() <= s0.len());
                acc = acc2;
            }
            ct = ct + 1;
        }
        let ghost cur = self.remaining();
        self.bump_assert();
        let ghost pre_set = self.elements@;
        self.elements.set(header_idx, Element::DictBegin(ct));
        proof {
            let result = SpecValue::Dict(acc);
            assert(cur =~= seq![101u8] + cur.drop_first());
            assert(rem0 =~= spec_enc(result) + self.remaining()) by {
                assert(rem0 =~= seq![100u8] + s0);
                assert(s0 == enc_pairs(acc) + cur);
                assert(self.remaining() == cur.drop_first());
            }
            let before_set = toks0 + seq![SpecElem::DictBegin(0)] + elems_of_pairs(acc);
            lemma_view_elems_update(pre_set, header_idx as int, Element::DictBegin(ct));
            assert(self.toks() =~= toks0 + elems_of(result)) by {
                assert(view_elems(pre_set) == before_set);
                assert(self.toks() == before_set.update(
                    header_idx as int,
                    SpecElem::DictBegin(ct as int),
                ));
                assert(toks0.len() == header_idx);
                assert(elems_of(result) == seq![SpecElem::DictBegin(acc.len() as int)]
                    + elems_of_pairs(acc));
            }
            assert(self.elements@.subrange(0, elems0.len() as int) =~= elems0);
        }
        Ok(Ghost(SpecValue::Dict(acc)))
    }

    /// A buffer that opens with none of the four value kinds holds no
    /// value at its front.
    proof fn lemma_not_a_value(self, rem: Seq<u8>)
        requires
            rem.len() == 0 || (rem[0] != 100 && rem[0] != 105 && rem[0] != 108 && !(48 <= rem[0]
                <= 57)),
        ensures
            no_value_prefix(rem),
    {
        assert forall|v: SpecValue| !is_prefix_of(spec_enc(v), rem) by {
            if is_prefix_of(spec_enc(v), rem) {
                lemma_enc_shape(v);
                lemma_prefix_facts(spec_enc(v), rem);
                assert(rem.len() >= 2);
                assert(spec_enc(v)[0] == rem[0]);
            }
        }
    }

    /// One value, dispatched on its first byte: `d`, `i`, `l`, or a digit
    /// opening a byte string. Anything else, or an empty cursor, is no
    /// value at all.
    fn parse_value(&mut self) -> (r: Result<Ghost<SpecValue>, Error>)
        requires
            old(self).wf(),
        ensures
            final(self).wf(),
            final(self).input == old(self).input,
            final(self).elements@.len() >= old(self).elements@.len(),
            final(self).elements@.subrange(0, old(self).elements@.len() as int)
                == old(self).elements@,
            match r {
                Ok(g) => {
                    &&& old(self).remaining() == spec_enc(g@) + final(self).remaining()
                    &&& final(self).toks() == old(self).toks() + elems_of(g@)
                    &&& final(self).remaining().len() < old(self).remaining().len()
                },
                Err(e) => {
                    &&& no_value_prefix(old(self).remaining())
                    &&& !(e matches Error::Trailing)
                },
            },
        decreases old(self).remaining().len(), 1int,
    {
        let ghost rem = self.remaining();
        let next = self.peek();
        match next {
            Some(100u8) => {
                let r = self.parse_dict();
                match r {
                    Ok(g) => Ok(g),
                    Err(e) => {
                        proof {
                            assert forall|v: SpecValue| !is_prefix_of(spec_enc(v), rem) by {
                                if is_prefix_of(spec_enc(v), rem) {
                                    lemma_enc_shape(v);
                                    lemma_prefix_facts(spec_enc(v), rem);
                                    assert(spec_enc(v)[0] == rem[0]);
                                    match v {
                                        SpecValue::Dict(qs) => {
                                            assert(is_prefix_of(
                                                spec_enc(SpecValue::Dict(qs)),
                                                rem,
                                            ));
                                        },
                                        _ => {},
                                    }
                                }
                            }
                        }
                        Err(e)
                    },
                }
            },
            Some(105u8) => {
                let r = self.parse_int();
                match r {
                    Ok(g) => {
                        let ghost n = g@;
                        proof {
                            assert(elems_of(SpecValue::Int(n)) =~= seq![SpecElem::Int(n)]);
                        }
                        Ok(Ghost(SpecValue::Int(n)))
                    },
                    Err(e) => {
                        proof {
                            assert forall|v: SpecValue| !is_prefix_of(spec_enc(v), rem) by {
                                if is_prefix_of(spec_enc(v), rem) {
                                    lemma_enc_shape(v);
                                    lemma_prefix_facts(spec_enc(v), rem);
                                    assert(spec_enc(v)[0] == rem[0]);
                                    match v {
                                        SpecValue::Int(n) => {
                                            assert(is_prefix_of(
                                                spec_enc(SpecValue::Int(n)),
                                                rem,
                                            ));
                                        },
                                        _ => {},
                                    }
                                }
                            }
                        }
                        Err(e)
                    },
                }
            },
            Some(108u8) => {
                let r = self.parse_list();
                match r {
                    Ok(g) => Ok(g),
                    Err(e) => {
                        proof {
                            assert forall|v: SpecValue| !is_prefix_of(spec_enc(v), rem) by {
                                if is_prefix_of(spec_enc(v), rem) {
                                    lemma_enc_shape(v);
                                    lemma_prefix_facts(spec_enc(v), rem);
                                    assert(spec_enc(v)[0] == rem[0]);
                                    match v {
                                        SpecValue::List(ws) => {
                                            assert(is_prefix_of(
                                                spec_enc(SpecValue::List(ws)),
                                                rem,
                                            ));
                                        },
                                        _ => {},
                                    }
                                }
                            }
                        }
                        Err(e)
                    },
                }
            },
            Some(b) => {
                if 48 <= b && b <= 57 {
                    let r = self.parse_string();
                    match r {
                        Ok(g) => {
                            let ghost bs = g@;
                            proof {
                                assert(spec_enc(SpecValue::Bytes(bs)) == enc_bytes(bs));
                                assert(elems_of(SpecValue::Bytes(bs)) =~= seq![
                                    SpecElem::Bytes(bs),
                                ]);
                            }
                            Ok(Ghost(SpecValue::Bytes(bs)))
                        },
                        Err(e) => {
                            proof {
                                assert forall|v: SpecValue|
                                    !is_prefix_of(spec_enc(v), rem) by {
                                    if is_prefix_of(spec_enc(v), rem) {
                                        lemma_enc_shape(v);
                                        lemma_prefix_facts(spec_enc(v), rem);
                                        assert(spec_enc(v)[0] == rem[0]);
                                        match v {
                                            SpecValue::Bytes(bs) => {
                                                assert(spec_enc(SpecValue::Bytes(bs))
                                                    == enc_bytes(bs));
                                                assert(is_prefix_of(enc_bytes(bs), rem));
                                            },
                                            _ => {},
                                        }
                                    }
                                }
                            }
                            Err(e)
                        },
                    }
                } else {
                    proof {
                        self.lemma_not_a_value(rem);
                    }
                    Err(Error::UnexpectedEnd("value".to_owned()))
                }
            },
            None => {
                proof {
                    self.lemma_not_a_value(rem);
                }
                Err(Error::UnexpectedEnd("value".to_owned()))
            },
        }
    }

    /// Parses the whole input as exactly one value. Succeeds on precisely
    /// the buffers some value encodes to; leftover bytes after a complete
    /// value are `Trailing`.
    pub fn parse(self) -> (r: Result<Elements, Error>)
        ensures
            match r {
                Ok(els) => {
                    &&& accepts(self.src())
                    &&& els.wf()
                    &&& forall|v: SpecValue|
                        spec_enc(v) == self.src() ==> els@ == elems_of(v)
                },
                Err(e) => {
                    &&& !accepts(self.src())
                    &&& ((e matches Error::Trailing) <==> has_value_prefix(self.src()))
                },
            },
    {
        let mut this = Parser { input: self.input, pos: 0, elements: Vec::new() };
        proof {
            assert(this.remaining() =~= self.src());
            assert(this.toks() =~= Seq::<SpecElem>::empty());
        }
        let result = match this.parse_value() {
            Ok(g) => g,
            Err(e) => {
                proof {
                    assert(!accepts(self.src())) by {
                        if accepts(self.src()) {
                            let v = choose|v: SpecValue| spec_enc(v) == self.src();
                            assert(spec_enc(v) + Seq::<u8>::empty() =~= self.src());
                            lemma_concat_prefix(spec_enc(v), Seq::<u8>::empty(), self.src());
                        }
                    }
                    assert(!has_value_prefix(self.src())) by {
                        if has_value_prefix(self.src()) {
                            let v = choose|v: SpecValue|
                                is_prefix_of(spec_enc(v), self.src());
                        }
                    }
                }
                return Err(e);
            },
        };
        if this.is_done() {
            let els = Elements::from_parts(this.elements);
            proof {
                let v = result@;
                assert(self.src() =~= spec_enc(v));
                assert(els@ == elems_of(v));
                assert(accepts(self.src()));
                assert forall|w: SpecValue|
                    spec_enc(w) == self.src() implies els@ == elems_of(w) by {
                    assert(spec_enc(w) + Seq::<u8>::empty() =~= spec_enc(v)
                        + Seq::<u8>::empty());
                    lemma_enc_prefix_free(w, v, Seq::<u8>::empty(), Seq::<u8>::empty());
                }
            }
            Ok(els)
        } else {
            proof {
                let v = result@;
                assert(!accepts(self.src())) by {
                    if accepts(self.src()) {
                        let w = choose|w: SpecValue| spec_enc(w) == self.src();
                        assert(spec_enc(w) + Seq::<u8>::empty() =~= spec_enc(v)
                            + this.remaining());
                        lemma_enc_prefix_free(w, v, Seq::<u8>::empty(), this.remaining());
                    }
                }
                assert(has_value_prefix(self.src())) by {
                    lemma_concat_prefix(spec_enc(v), this.remaining(), self.src());
                }
            }
            Err(Error::Trailing)
        }
    }
}

/// Parses `input` as one complete bencoded value, to a flat element
/// stream. Succeeds on exactly the buffers some value encodes to.
pub fn parse(input: &[u8]) -> (r: Result<Elements, ()>)
    ensures
        match r {
            Ok(els) => {
                &&& accepts(input@)
                &&& els.wf()
                &&& forall|v: SpecValue| spec_enc(v) == input@ ==> els@ == elems_of(v)
            },
            Err(_) => !accepts(input@),
        },
{
    let parser = Parser::new(input);
    match parser.parse() {
        Ok(els) => Ok(els),
        Err(_) => Err(()),
    }
}

} // verus!
