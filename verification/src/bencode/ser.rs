//! The verified core of the generic serialization adapter: a serializer
//! over one growing output buffer whose capabilities emit wire forms
//! directly, and whose map-key discipline keeps dictionary keys
//! byte-strings. The trait plumbing that drives these capabilities from a
//! data-binding framework lives outside the verified library.

use vstd::prelude::*;
use vstd::string::StringSliceAdditionalSpecFns;

use crate::bencode::encode::{encode_integer, encode_string};
use crate::bencode::model::{enc_bytes, spec_enc, SpecValue};
use crate::bytebuf::{buf_bytes, buf_new, buf_put_u8, buf_to_vec};

verus! {

/// What the adapter reports: a primitive the wire model has no place for,
/// a map key that is not a byte string, or a message from the caller's own
/// serialization code.
#[derive(Debug, PartialEq, Eq)]
pub enum Error {
    UnsupportedElement(Option<String>),
    InvalidMapKey,
    Other(String),
}

/// The rejection every unsupported capability reports, carrying the name
/// of what was asked for.
pub fn unsupported_element<T>(which: Option<&str>) -> (r: Result<T, Error>)
    ensures
        r matches Err(e) && e matches Error::UnsupportedElement(_),
{
    let name = match which {
        Some(s) => Some(s.to_owned()),
        None => None,
    };
    Err(Error::UnsupportedElement(name))
}

/// A streaming serializer: bencoded output accumulates in one buffer, and
/// a flag marks when a dictionary key is being written.
pub struct Serializer {
    buf: bytes::BytesMut,
    writing_map_key: bool,
}

impl Serializer {
    /// The bytes emitted so far.
    pub closed spec fn out(self) -> Seq<u8> {
        buf_bytes(self.buf)
    }

    /// A dictionary key is being written: only byte strings may come.
    pub closed spec fn in_key(self) -> bool {
        self.writing_map_key
    }

    /// An empty serializer, not inside a key.
    pub fn new() -> (r: Self)
        ensures
            r.out() == Seq::<u8>::empty(),
            !r.in_key(),
    {
        Self { buf: buf_new(), writing_map_key: false }
    }

    /// Emits an integer, unless a key is being written.
    pub fn serialize_i64(&mut self, v: i64) -> (r: Result<(), Error>)
        requires
            old(self).out().len() + spec_enc(SpecValue::Int(v)).len() <= usize::MAX,
        ensures
            final(self).in_key() == old(self).in_key(),
            if old(self).in_key() {
                r matches Err(Error::InvalidMapKey) && final(self).out() == old(self).out()
            } else {
                r is Ok && final(self).out() == old(self).out() + spec_enc(SpecValue::Int(v))
            },
    {
        if self.writing_map_key {
            return Err(Error::InvalidMapKey);
        }
        encode_integer(v, &mut self.buf);
        Ok(())
    }

    /// Emits a narrower signed integer, widened to 64 bits.
    pub fn serialize_i32(&mut self, v: i32) -> (r: Result<(), Error>)
        requires
            old(self).out().len() + spec_enc(SpecValue::Int(v as i64)).len() <= usize::MAX,
        ensures
            final(self).in_key() == old(self).in_key(),
            if old(self).in_key() {
                r matches Err(Error::InvalidMapKey) && final(self).out() == old(self).out()
            } else {
                r is Ok && final(self).out() == old(self).out() + spec_enc(
                    SpecValue::Int(v as i64),
                )
            },
    {
        self.serialize_i64(v as i64)
    }

    /// Emits an unsigned 32-bit integer, widened to 64 bits; `u64` itself
    /// has no safe place in the wire model and is refused by the adapter.
    pub fn serialize_u32(&mut self, v: u32) -> (r: Result<(), Error>)
        requires
            old(self).out().len() + spec_enc(SpecValue::Int(v as i64)).len() <= usize::MAX,
        ensures
            final(self).in_key() == old(self).in_key(),
            if old(self).in_key() {
                r matches Err(Error::InvalidMapKey) && final(self).out() == old(self).out()
            } else {
                r is Ok && final(self).out() == old(self).out() + spec_enc(
                    SpecValue::Int(v as i64),
                )
            },
    {
        self.serialize_i64(v as i64)
    }

    /// Emits a byte string; byte strings are welcome in key position.
    pub fn serialize_bytes(&mut self, v: &[u8]) -> (r: Result<(), Error>)
        requires
            old(self).out().len() + enc_bytes(v@).len() <= usize::MAX,
        ensures
            r is Ok,
            final(self).in_key() == old(self).in_key(),
            final(self).out() == old(self).out() + enc_bytes(v@),
    {
        encode_string(v, &mut self.buf);
        Ok(())
    }

    /// Emits a string as the byte string of its UTF-8 bytes.
    pub fn serialize_str(&mut self, v: &str) -> (r: Result<(), Error>)
        requires
            old(self).out().len() + enc_bytes(v.spec_bytes()).len() <= usize::MAX,
        ensures
            r is Ok,
            final(self).in_key() == old(self).in_key(),
            final(self).out() == old(self).out() + enc_bytes(v.spec_bytes()),
    {
        self.serialize_bytes(v.as_bytes())
    }

    /// An absent or unit value emits nothing, and cannot stand for a key.
    pub fn serialize_none(&mut self) -> (r: Result<(), Error>)
        ensures
            final(self).in_key() == old(self).in_key(),
            if old(self).in_key() {
                r matches Err(Error::InvalidMapKey) && final(self).out() == old(self).out()
            } else {
                r is Ok && final(self).out() == old(self).out()
            },
    {
        if self.writing_map_key {
            return Err(Error::InvalidMapKey);
        }
        Ok(())
    }

    /// Opens a list, unless a key is being written.
    pub fn begin_seq(&mut self) -> (r: Result<(), Error>)
        requires
            old(self).out().len() + 1 <= usize::MAX,
        ensures
            final(self).in_key() == old(self).in_key(),
            if old(self).in_key() {
                r matches Err(Error::InvalidMapKey) && final(self).out() == old(self).out()
            } else {
                r is Ok && final(self).out() == old(self).out().push(108u8)
            },
    {
        if self.writing_map_key {
            return Err(Error::InvalidMapKey);
        }
        buf_put_u8(&mut self.buf, 108);
        Ok(())
    }

    /// Closes the innermost list.
    pub fn end_seq(&mut self)
        requires
            old(self).out().len() + 1 <= usize::MAX,
        ensures
            final(self).in_key() == old(self).in_key(),
            final(self).out() == old(self).out().push(101u8),
    {
        buf_put_u8(&mut self.buf, 101);
    }

    /// Opens a dictionary, for a map or a struct, unless a key is being
    /// written.
    pub fn begin_map(&mut self) -> (r: Result<(), Error>)
        requires
            old(self).out().len() + 1 <= usize::MAX,
        ensures
            final(self).in_key() == old(self).in_key(),
            if old(self).in_key() {
                r matches Err(Error::InvalidMapKey) && final(self).out() == old(self).out()
            } else {
                r is Ok && final(self).out() == old(self).out().push(100u8)
            },
    {
        if self.writing_map_key {
            return Err(Error::InvalidMapKey);
        }
        buf_put_u8(&mut self.buf, 100);
        Ok(())
    }

    /// Closes the innermost dictionary.
    pub fn end_map(&mut self)
        requires
            old(self).out().len() + 1 <= usize::MAX,
        ensures
            final(self).in_key() == old(self).in_key(),
            final(self).out() == old(self).out().push(101u8),
    {
        buf_put_u8(&mut self.buf, 101);
    }

    /// Enters key position: until `end_key`, only byte strings may be
    /// emitted. Saved and restored around each key, never global.
    pub fn begin_key(&mut self)
        ensures
            final(self).out() == old(self).out(),
            final(self).in_key(),
    {
        self.writing_map_key = true;
    }

    /// Leaves key position.
    pub fn end_key(&mut self)
        ensures
            final(self).out() == old(self).out(),
            !final(self).in_key(),
    {
        self.writing_map_key = false;
    }

    /// Hands the accumulated bytes out.
    pub fn into_bytes(self) -> (r: Vec<u8>)
        ensures
            r@ == self.out(),
    {
        buf_to_vec(&self.buf)
    }
}

} // verus!
