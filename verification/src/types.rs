//! Shared domain types of the tracker: peer and info-hash identifiers,
//! announce events, and per-info-hash bookkeeping.

use vstd::prelude::*;
use vstd::string::StringSliceAdditionalSpecFns;

verus! {

/// A peer identifier: twenty raw bytes on the wire, kept opaque.
#[derive(Debug, Clone, PartialEq, Eq, Hash)]
pub struct PeerId(pub Vec<u8>);

/// A torrent's info-hash: raw digest bytes, kept opaque.
#[derive(Debug, Clone, PartialEq, Eq, Hash)]
pub struct InfoHash(pub Vec<u8>);

/// An ASCII hexadecimal digit, either case.
pub open spec fn is_hex_byte(b: u8) -> bool {
    (48 <= b <= 57) || (97 <= b <= 102) || (65 <= b <= 70)
}

/// The value of one hexadecimal digit byte.
pub open spec fn hex_byte_val(b: u8) -> int {
    if 48 <= b <= 57 {
        b - 48
    } else if 97 <= b <= 102 {
        b - 87
    } else if 65 <= b <= 70 {
        b - 55
    } else {
        0
    }
}

/// The lowercase digit character of one value below sixteen.
pub open spec fn hex_digit(n: int) -> char {
    if n == 0 { '0' } else if n == 1 { '1' } else if n == 2 { '2' } else if n == 3 { '3' }
    else if n == 4 { '4' } else if n == 5 { '5' } else if n == 6 { '6' } else if n == 7 { '7' }
    else if n == 8 { '8' } else if n == 9 { '9' } else if n == 10 { 'a' } else if n == 11 { 'b' }
    else if n == 12 { 'c' } else if n == 13 { 'd' } else if n == 14 { 'e' } else { 'f' }
}

/// Lowercase hexadecimal of a byte sequence, two digits per byte, high
/// part first.
pub open spec fn hex_of(bs: Seq<u8>) -> Seq<char>
    decreases bs,
{
    if bs.len() == 0 {
        Seq::empty()
    } else {
        seq![hex_digit(bs[0] as int / 16), hex_digit(bs[0] as int % 16)] + hex_of(bs.drop_first())
    }
}

/// The bytes a run of hexadecimal digit pairs spells.
pub open spec fn hex_decoded(s: Seq<u8>) -> Seq<u8>
    decreases s.len(),
{
    if s.len() < 2 {
        Seq::empty()
    } else {
        seq![(hex_byte_val(s[0]) * 16 + hex_byte_val(s[1])) as u8] + hex_decoded(s.skip(2))
    }
}

/// Relies on `hex::encode`: two lowercase digits per byte, high part
/// first.
#[verifier::external_body]
fn hex_encode(bs: &[u8]) -> (r: String)
    ensures
        r@ == hex_of(bs@),
{
    hex::encode(bs)
}

/// Relies on `hex::decode`: pairs of hexadecimal digits, either case,
/// to bytes; odd lengths and other characters are refused.
#[verifier::external_body]
fn hex_decode(s: &[u8]) -> (r: Option<Vec<u8>>)
    ensures
        match r {
            Some(v) => s@.len() % 2 == 0 && (forall|i: int|
                0 <= i < s@.len() ==> is_hex_byte(#[trigger] s@[i])) && v@ == hex_decoded(s@),
            None => s@.len() % 2 != 0 || exists|i: int|
                0 <= i < s@.len() && !is_hex_byte(#[trigger] s@[i]),
        },
{
    hex::decode(s).ok()
}

impl InfoHash {
    /// The digest bytes read from their hexadecimal spelling, or nothing
    /// when the string is not such a spelling.
    pub fn from_hex(s: &str) -> (r: Option<InfoHash>)
        ensures
            match r {
                Some(h) => s.spec_bytes().len() % 2 == 0 && (forall|i: int|
                    0 <= i < s.spec_bytes().len() ==> is_hex_byte(
                        #[trigger] s.spec_bytes()[i],
                    )) && h.0@ == hex_decoded(s.spec_bytes()),
                None => s.spec_bytes().len() % 2 != 0 || exists|i: int|
                    0 <= i < s.spec_bytes().len() && !is_hex_byte(
                        #[trigger] s.spec_bytes()[i],
                    ),
            },
    {
        match hex_decode(s.as_bytes()) {
            Some(v) => Some(InfoHash(v)),
            None => None,
        }
    }

    /// The digest bytes spelled in lowercase hexadecimal.
    pub fn to_hex(&self) -> (r: String)
        ensures
            r@ == hex_of(self.0@),
    {
        hex_encode(self.0.as_slice())
    }
}

/// What a peer announces about its own state of the download.
#[derive(Debug, PartialEq, Eq, Clone)]
pub enum Event {
    Started,
    Completed,
    Stopped,
    Interval,
}

impl Event {
    /// The lowercase wire name of the event.
    pub fn to_string(&self) -> (r: String)
        ensures
            match self {
                Event::Started => r@ == "started"@,
                Event::Completed => r@ == "completed"@,
                Event::Stopped => r@ == "stopped"@,
                Event::Interval => r@ == "interval"@,
            },
    {
        match self {
            Event::Started => "started".to_owned(),
            Event::Completed => "completed".to_owned(),
            Event::Stopped => "stopped".to_owned(),
            Event::Interval => "interval".to_owned(),
        }
    }
}

impl Default for Event {
    /// A plain periodic announce, when the peer names no event.
    fn default() -> (r: Self)
        ensures
            r == Event::Interval,
    {
        Event::Interval
    }
}

/// Aggregate counters a tracker reports for one info-hash.
#[derive(Debug, Clone, PartialEq, Eq)]
pub struct PeerStatistics {
    pub complete: u32,
    pub downloaded: u32,
    pub incomplete: u32,
}

/// Whether an info-hash has been explicitly allowed or denied.
#[derive(Debug, Clone, PartialEq, Eq)]
pub enum InfoHashStatus {
    Unknown,
    ExplicitAllow,
    ExplicitDeny,
}

/// An info-hash together with its moderation status.
#[derive(Debug, Clone, PartialEq, Eq)]
pub struct InfoHashSummary {
    pub info_hash: InfoHash,
    pub status: InfoHashStatus,
}

} // verus!
