//! The fixed binary layout of UDP tracker datagrams: big-endian field
//! readers, the shape each request must have, and the writers of each
//! response.

use vstd::prelude::*;
use vstd::string::StringSliceAdditionalSpecFns;
use vstd::slice::slice_subrange;
use vstd::utf8::{decode_utf8, encode_utf8, valid_utf8};

use crate::bytebuf::{
    as_u16, as_u32, as_u64, be2, be4, be8, buf_bytes, buf_put_i16, buf_put_i32, buf_put_i64,
    buf_put_slice,
};
use crate::types::Event;
use crate::udp_tracker::extensions::{parse_extensions, spec_exts, view_exts};
use crate::udp_tracker::proto::{
    AnnounceRequest, AnnounceResponse, ConnectRequest, ConnectResponse, Error, ErrorResponse,
    InfoHashScrapeData, Request, Response, ScrapeRequest, ScrapeResponse,
};

verus! {

/// The number the `n` bytes of `s` at `off` spell in big-endian order.
pub open spec fn be_val(s: Seq<u8>, off: int, n: int) -> int
    decreases n,
{
    if n <= 0 {
        0
    } else {
        be_val(s, off, n - 1) * 256 + s[off + n - 1]
    }
}

/// Two's-complement reading of an unsigned 16-bit number.
pub open spec fn signed16(u: int) -> int {
    if u < 0x8000 {
        u
    } else {
        u - 0x1_0000
    }
}

/// Two's-complement reading of an unsigned 32-bit number.
pub open spec fn signed32(u: int) -> int {
    if u < 0x8000_0000 {
        u
    } else {
        u - 0x1_0000_0000
    }
}

/// Two's-complement reading of an unsigned 64-bit number.
pub open spec fn signed64(u: int) -> int {
    if u < 0x8000_0000_0000_0000 {
        u
    } else {
        u - 0x1_0000_0000_0000_0000
    }
}

/// Unfolds the big-endian value at each width up to eight.
proof fn lemma_be_val_unfold(s: Seq<u8>, off: int)
    ensures
        be_val(s, off, 0) == 0,
        be_val(s, off, 1) == s[off],
        be_val(s, off, 2) == be_val(s, off, 1) * 256 + s[off + 1],
        be_val(s, off, 3) == be_val(s, off, 2) * 256 + s[off + 2],
        be_val(s, off, 4) == be_val(s, off, 3) * 256 + s[off + 3],
        be_val(s, off, 5) == be_val(s, off, 4) * 256 + s[off + 4],
        be_val(s, off, 6) == be_val(s, off, 5) * 256 + s[off + 5],
        be_val(s, off, 7) == be_val(s, off, 6) * 256 + s[off + 6],
        be_val(s, off, 8) == be_val(s, off, 7) * 256 + s[off + 7],
{
    assert(be_val(s, off, 0) == 0);
    assert(be_val(s, off, 1) == be_val(s, off, 0) * 256 + s[off]);
    assert(be_val(s, off, 2) == be_val(s, off, 1) * 256 + s[off + 1]);
    assert(be_val(s, off, 3) == be_val(s, off, 2) * 256 + s[off + 2]);
    assert(be_val(s, off, 4) == be_val(s, off, 3) * 256 + s[off + 3]);
    assert(be_val(s, off, 5) == be_val(s, off, 4) * 256 + s[off + 4]);
    assert(be_val(s, off, 6) == be_val(s, off, 5) * 256 + s[off + 5]);
    assert(be_val(s, off, 7) == be_val(s, off, 6) * 256 + s[off + 6]);
    assert(be_val(s, off, 8) == be_val(s, off, 7) * 256 + s[off + 7]);
}

/// Reads two big-endian bytes.
fn read_u16_at(s: &[u8], off: usize) -> (r: u16)
    requires
        off + 2 <= s@.len(),
    ensures
        r as int == be_val(s@, off as int, 2),
{
    let b0 = s[off] as u16;
    let b1 = s[off + 1] as u16;
    proof {
        lemma_be_val_unfold(s@, off as int);
    }
    b0 * 256 + b1
}

/// Reads four big-endian bytes.
fn read_u32_at(s: &[u8], off: usize) -> (r: u32)
    requires
        off + 4 <= s@.len(),
    ensures
        r as int == be_val(s@, off as int, 4),
{
    let b0 = s[off] as u32;
    let b1 = s[off + 1] as u32;
    let b2 = s[off + 2] as u32;
    let b3 = s[off + 3] as u32;
    proof {
        lemma_be_val_unfold(s@, off as int);
    }
    ((b0 * 256 + b1) * 256 + b2) * 256 + b3
}

/// Reads eight big-endian bytes.
fn read_u64_at(s: &[u8], off: usize) -> (r: u64)
    requires
        off + 8 <= s@.len(),
    ensures
        r as int == be_val(s@, off as int, 8),
{
    let mut r: u64 = 0;
    let mut k: usize = 0;
    proof {
        assert(vstd::slice::spec_slice_len(s) == s@.len());
        assert(be_val(s@, off as int, 0) == 0);
    }
    while k < 8
        invariant
            k <= 8,
            off + 8 <= s@.len(),
            s@.len() <= usize::MAX,
            r as int == be_val(s@, off as int, k as int),
            (r as int) < 0x100_0000_0000_0000 || k == 8,
        decreases 8 - k,
    {
        proof {
            lemma_be_val_bound(s@, off as int, k as int + 1);
            assert(be_val(s@, off as int, k as int + 1) == be_val(s@, off as int, k as int)
                * 256 + s@[off as int + k as int]);
        }
        r = r * 256 + (s[off + k] as u64);
        k = k + 1;
    }
    r
}

/// A big-endian number of `n` bytes stays under `256^n`.
proof fn lemma_be_val_bound(s: Seq<u8>, off: int, n: int)
    requires
        0 <= n <= 8,
    ensures
        0 <= be_val(s, off, n),
        n <= 1 ==> be_val(s, off, n) < 0x100,
        n <= 2 ==> be_val(s, off, n) < 0x1_0000,
        n <= 3 ==> be_val(s, off, n) < 0x100_0000,
        n <= 4 ==> be_val(s, off, n) < 0x1_0000_0000,
        n <= 5 ==> be_val(s, off, n) < 0x100_0000_0000,
        n <= 6 ==> be_val(s, off, n) < 0x1_0000_0000_0000,
        n <= 7 ==> be_val(s, off, n) < 0x100_0000_0000_0000,
        be_val(s, off, n) < 0x1_0000_0000_0000_0000,
    decreases n,
{
    if n > 0 {
        lemma_be_val_bound(s, off, n - 1);
        assert(be_val(s, off, n) == be_val(s, off, n - 1) * 256 + s[off + n - 1]);
    }
}

/// Converts an unsigned 16-bit word to its two's-complement reading.
fn u16_to_i16(u: u16) -> (r: i16)
    ensures
        r as int == signed16(u as int),
{
    if u < 0x8000 {
        u as i16
    } else {
        let d = (u - 0x8000) as i16;
        (-0x7fff - 1) + d
    }
}

/// Converts an unsigned 32-bit word to its two's-complement reading.
fn u32_to_i32(u: u32) -> (r: i32)
    ensures
        r as int == signed32(u as int),
{
    if u < 0x8000_0000 {
        u as i32
    } else {
        let d = (u - 0x8000_0000) as i32;
        (-0x7fff_ffff - 1) + d
    }
}

/// Converts an unsigned 64-bit word to its two's-complement reading.
fn u64_to_i64(u: u64) -> (r: i64)
    ensures
        r as int == signed64(u as int),
{
    if u < 0x8000_0000_0000_0000 {
        u as i64
    } else {
        let d = (u - 0x8000_0000_0000_0000) as i64;
        (-0x7fff_ffff_ffff_ffff - 1) + d
    }
}

/// The magic number that opens every connect request.
pub open spec fn protocol_id() -> int {
    0x41727101980
}

/// A connect request: exactly sixteen bytes, the magic number, action
/// zero.
pub open spec fn connect_shape(s: Seq<u8>) -> bool {
    &&& s.len() == 16
    &&& be_val(s, 0, 8) == protocol_id()
    &&& be_val(s, 8, 4) == 0
}

/// An announce request: the ninety-eight fixed bytes with action one, both
/// twenty-byte names valid UTF-8, a known event number, and an extension
/// trailer that reads to the end.
pub open spec fn announce_shape(s: Seq<u8>) -> bool {
    &&& s.len() >= 98
    &&& be_val(s, 8, 4) == 1
    &&& valid_utf8(s.subrange(16, 36))
    &&& valid_utf8(s.subrange(36, 56))
    &&& be_val(s, 80, 4) <= 3
    &&& match spec_exts(s.skip(98)) {
        Some((_, n)) => n == s.len() - 98,
        None => false,
    }
}

/// A scrape request: the sixteen-byte head with action two, then one or
/// more twenty-byte names, each valid UTF-8, filling the datagram.
pub open spec fn scrape_shape(s: Seq<u8>) -> bool {
    &&& s.len() >= 36
    &&& (s.len() - 16) % 20 == 0
    &&& be_val(s, 8, 4) == 2
    &&& forall|k: int|
        0 <= k < (s.len() - 16) / 20 ==> valid_utf8(
            #[trigger] s.subrange(16 + 20 * k, 36 + 20 * k),
        )
}

/// The fields an announce request carries, read off the wire.
pub open spec fn announce_fields(s: Seq<u8>, a: AnnounceRequest) -> bool {
    &&& a.connection_id as int == signed64(be_val(s, 0, 8))
    &&& a.transaction_id as int == signed32(be_val(s, 12, 4))
    &&& a.info_hash@ == decode_utf8(s.subrange(16, 36))
    &&& a.peer_id@ == decode_utf8(s.subrange(36, 56))
    &&& a.downloaded as int == signed64(be_val(s, 56, 8))
    &&& a.left as int == signed64(be_val(s, 64, 8))
    &&& a.uploaded as int == signed64(be_val(s, 72, 8))
    &&& a.event == (if be_val(s, 80, 4) == 0 {
        Option::<Event>::None
    } else if be_val(s, 80, 4) == 1 {
        Some(Event::Completed)
    } else if be_val(s, 80, 4) == 2 {
        Some(Event::Started)
    } else {
        Some(Event::Stopped)
    })
    &&& a.ip_address == (if signed32(be_val(s, 84, 4)) == 0 {
        Option::<i32>::None
    } else {
        Some(signed32(be_val(s, 84, 4)) as i32)
    })
    &&& a.key as int == signed32(be_val(s, 88, 4))
    &&& a.num_want == (if signed32(be_val(s, 92, 4)) == -1 {
        Option::<i32>::None
    } else {
        Some(signed32(be_val(s, 92, 4)) as i32)
    })
    &&& a.port as int == signed16(be_val(s, 96, 2))
    &&& match spec_exts(s.skip(98)) {
        Some((r, _)) => view_exts(a.extensions@) == r,
        None => false,
    }
}

/// The fields a scrape request carries, read off the wire.
pub open spec fn scrape_fields(s: Seq<u8>, sc: ScrapeRequest) -> bool {
    &&& sc.connection_id as int == signed64(be_val(s, 0, 8))
    &&& sc.transaction_id as int == signed32(be_val(s, 12, 4))
    &&& sc.info_hashes@.len() == (s.len() - 16) / 20
    &&& forall|k: int|
        0 <= k < sc.info_hashes@.len() ==> (#[trigger] sc.info_hashes@[k])@ == decode_utf8(
            s.subrange(16 + 20 * k, 36 + 20 * k),
        )
}

/// Parses one datagram as a request: exactly the connect, announce, and
/// scrape shapes are accepted, and the fields come straight off the wire.
#[verifier::loop_isolation(false)]
#[verifier::rlimit(100)]
pub fn parse_request(input: &[u8]) -> (r: Result<Request, Error>)
    ensures
        match r {
            Ok(req) => match req {
                Request::Connect(c) => connect_shape(input@) && c.transaction_id as int
                    == signed32(be_val(input@, 12, 4)),
                Request::Announce(a) => announce_shape(input@) && announce_fields(input@, a),
                Request::Scrape(sc) => scrape_shape(input@) && scrape_fields(input@, sc),
            },
            Err(_) => !connect_shape(input@) && !announce_shape(input@) && !scrape_shape(
                input@,
            ),
        },
{
    let n = input.len();
    if n == 16 {
        let hi = read_u32_at(input, 0);
        let lo = read_u32_at(input, 4);
        let action = read_u32_at(input, 8);
        proof {
            lemma_be_val_split8(input@, 0);
        }
        if hi == 0x417 && lo == 0x27101980 && action == 0 {
            let tid = u32_to_i32(read_u32_at(input, 12));
            return Ok(Request::Connect(ConnectRequest { transaction_id: tid }));
        }
        return Err(Error::Other(()));
    }
    if n >= 98 {
        let action = read_u32_at(input, 8);
        if action == 1 {
            let info_hash = match crate::udp_tracker::extensions::utf8_to_string(
                slice_subrange(input, 16, 36),
            ) {
                Some(t) => t,
                None => {
                    return Err(Error::Other(()));
                },
            };
            let peer_id = match crate::udp_tracker::extensions::utf8_to_string(
                slice_subrange(input, 36, 56),
            ) {
                Some(t) => t,
                None => {
                    return Err(Error::Other(()));
                },
            };
            let ev_num = read_u32_at(input, 80);
            if ev_num > 3 {
                return Err(Error::Other(()));
            }
            let event = if ev_num == 0 {
                None
            } else if ev_num == 1 {
                Some(Event::Completed)
            } else if ev_num == 2 {
                Some(Event::Started)
            } else {
                Some(Event::Stopped)
            };
            let (extensions, used) = match parse_extensions(
                slice_subrange(input, 98, n),
            ) {
                Ok(p) => p,
                Err(_) => {
                    proof {
                        assert(input@.skip(98) =~= input@.subrange(98, input@.len() as int));
                    }
                    return Err(Error::Other(()));
                },
            };
            proof {
                assert(input@.skip(98) =~= input@.subrange(98, input@.len() as int));
            }
            if used != n - 98 {
                return Err(Error::Other(()));
            }
            let ip_raw = u32_to_i32(read_u32_at(input, 84));
            let num_want_raw = u32_to_i32(read_u32_at(input, 92));
            let a = AnnounceRequest {
                connection_id: u64_to_i64(read_u64_at(input, 0)),
                transaction_id: u32_to_i32(read_u32_at(input, 12)),
                info_hash,
                peer_id,
                downloaded: u64_to_i64(read_u64_at(input, 56)),
                left: u64_to_i64(read_u64_at(input, 64)),
                uploaded: u64_to_i64(read_u64_at(input, 72)),
                event,
                ip_address: if ip_raw == 0 {
                    None
                } else {
                    Some(ip_raw)
                },
                key: u32_to_i32(read_u32_at(input, 88)),
                num_want: if num_want_raw == -1 {
                    None
                } else {
                    Some(num_want_raw)
                },
                port: u16_to_i16(read_u16_at(input, 96)),
                extensions,
            };
            return Ok(Request::Announce(a));
        }
    }
    if n >= 36 && (n - 16) % 20 == 0 {
        let action = read_u32_at(input, 8);
        if action == 2 {
            let count = (n - 16) / 20;
            let mut hashes: Vec<String> = Vec::new();
            let mut k: usize = 0;
            while k < count
                invariant
                    k <= count,
                    count == (n - 16) / 20,
                    n == input@.len(),
                    n >= 36,
                    (n - 16) % 20 == 0,
                    hashes@.len() == k,
                    forall|m: int|
                        0 <= m < k ==> valid_utf8(
                            #[trigger] input@.subrange(16 + 20 * m, 36 + 20 * m),
                        ),
                    forall|m: int|
                        0 <= m < k ==> (#[trigger] hashes@[m])@ == decode_utf8(
                            input@.subrange(16 + 20 * m, 36 + 20 * m),
                        ),
                decreases count - k,
            {
                proof {
                    assert(16 + 20 * k + 20 <= n) by (nonlinear_arith)
                        requires
                            k < count,
                            count == (n - 16) / 20,
                            (n - 16) % 20 == 0,
                            n >= 36,
                        {
                            vstd::arithmetic::div_mod::lemma_fundamental_div_mod(
                                n - 16,
                                20,
                            );
                        }
                }
                let h = match crate::udp_tracker::extensions::utf8_to_string(
                    slice_subrange(input, 16 + 20 * k, 36 + 20 * k),
                ) {
                    Some(t) => t,
                    None => {
                        proof {
                            assert(!scrape_shape(input@));
                        }
                        return Err(Error::Other(()));
                    },
                };
                hashes.push(h);
                k = k + 1;
            }
            let sc = ScrapeRequest {
                connection_id: u64_to_i64(read_u64_at(input, 0)),
                transaction_id: u32_to_i32(read_u32_at(input, 12)),
                info_hashes: hashes,
            };
            return Ok(Request::Scrape(sc));
        }
    }
    proof {
        lemma_shapes_refuted(input@);
    }
    Err(Error::Other(()))
}

/// The first eight bytes split into two four-byte halves.
proof fn lemma_be_val_split8(s: Seq<u8>, off: int)
    requires
        off >= 0,
        off + 8 <= s.len(),
    ensures
        be_val(s, off, 8) == be_val(s, off, 4) * 0x1_0000_0000 + be_val(s, off + 4, 4),
{
    lemma_be_val_unfold(s, off);
    lemma_be_val_unfold(s, off + 4);
    assert(be_val(s, off + 4, 4) == ((s[off + 4] * 256 + s[off + 5]) * 256 + s[off + 6]) * 256
        + s[off + 7]);
    assert(be_val(s, off, 8) == ((((((be_val(s, off, 4) * 256 + s[off + 4]) * 256 + s[off
        + 5])) * 256 + s[off + 6])) * 256 + s[off + 7]));
    assert(be_val(s, off, 8) == be_val(s, off, 4) * 0x1_0000_0000 + be_val(s, off + 4, 4))
        by (nonlinear_arith)
        requires
            be_val(s, off, 8) == ((((((be_val(s, off, 4) * 256 + s[off + 4]) * 256 + s[off
                + 5])) * 256 + s[off + 6])) * 256 + s[off + 7]),
            be_val(s, off + 4, 4) == ((s[off + 4] * 256 + s[off + 5]) * 256 + s[off + 6]) * 256
                + s[off + 7],
    {
    }
}

/// When the checked entry conditions fail, no request shape fits.
proof fn lemma_shapes_refuted(s: Seq<u8>)
    requires
        s.len() == 16 ==> !(be_val(s, 0, 8) == protocol_id() && be_val(s, 8, 4) == 0),
        s.len() >= 98 ==> be_val(s, 8, 4) != 1,
        s.len() >= 36 && (s.len() - 16) % 20 == 0 ==> be_val(s, 8, 4) != 2,
    ensures
        !connect_shape(s),
        !announce_shape(s),
        !scrape_shape(s),
{
}

/// Writes the sixteen-byte answer to a connect.
pub fn encode_connect_response(resp: &ConnectResponse, buf: &mut bytes::BytesMut)
    requires
        buf_bytes(*old(buf)).len() + 16 <= usize::MAX,
    ensures
        buf_bytes(*final(buf)) == buf_bytes(*old(buf)) + be4(0) + be4(
            as_u32(resp.transaction_id),
        ) + be8(as_u64(resp.connection_id)),
{
    buf_put_i32(buf, 0);
    buf_put_i32(buf, resp.transaction_id);
    buf_put_i64(buf, resp.connection_id);
    proof {
        assert(as_u32(0i32) == 0);
        assert(buf_bytes(*buf) =~= buf_bytes(*old(buf)) + be4(0) + be4(
            as_u32(resp.transaction_id),
        ) + be8(as_u64(resp.connection_id)));
    }
}

/// The packed peer list of an announce answer.
pub open spec fn peer_entries(ps: Seq<(i32, i16)>) -> Seq<u8>
    decreases ps,
{
    if ps.len() == 0 {
        Seq::empty()
    } else {
        be4(as_u32(ps[0].0)) + be2(as_u16(ps[0].1)) + peer_entries(ps.drop_first())
    }
}

/// Peeling one peer off the packed list.
proof fn lemma_peer_entries_step(ps: Seq<(i32, i16)>, k: int)
    requires
        0 <= k < ps.len(),
    ensures
        peer_entries(ps.skip(k)) == be4(as_u32(ps[k].0)) + be2(as_u16(ps[k].1)) + peer_entries(
            ps.skip(k + 1),
        ),
{
    let s = ps.skip(k);
    assert(s[0] == ps[k]);
    assert(s.drop_first() =~= ps.skip(k + 1));
    assert(be4(as_u32(s[0].0)) + be2(as_u16(s[0].1)) + peer_entries(s.drop_first()) == be4(
        as_u32(ps[k].0),
    ) + be2(as_u16(ps[k].1)) + peer_entries(ps.skip(k + 1)));
}

/// The packed peer list takes six bytes per peer.
proof fn lemma_peer_entries_len(ps: Seq<(i32, i16)>)
    ensures
        peer_entries(ps).len() == 6 * ps.len(),
    decreases ps,
{
    if ps.len() > 0 {
        lemma_peer_entries_len(ps.drop_first());
    }
}

/// Writes the answer to an announce: action, transaction, interval,
/// counters, then the packed peers.
#[verifier::loop_isolation(false)]
pub fn encode_announce_response(resp: &AnnounceResponse, buf: &mut bytes::BytesMut)
    requires
        buf_bytes(*old(buf)).len() + 20 + 6 * resp.peers@.len() <= usize::MAX,
    ensures
        buf_bytes(*final(buf)) == buf_bytes(*old(buf)) + be4(1) + be4(
            as_u32(resp.transaction_id),
        ) + be4(as_u32(resp.interval)) + be4(as_u32(resp.leechers)) + be4(as_u32(resp.seeders))
            + peer_entries(resp.peers@),
{
    buf_put_i32(buf, 1);
    buf_put_i32(buf, resp.transaction_id);
    buf_put_i32(buf, resp.interval);
    buf_put_i32(buf, resp.leechers);
    buf_put_i32(buf, resp.seeders);
    let ghost head = buf_bytes(*buf);
    proof {
        assert(as_u32(1i32) == 1);
        lemma_peer_entries_len(resp.peers@);
        assert(resp.peers@.skip(0) =~= resp.peers@);
    }
    let m = resp.peers.len();
    let mut k: usize = 0;
    while k < m
        invariant
            k <= m,
            m == resp.peers@.len(),
            buf_bytes(*buf) + peer_entries(resp.peers@.skip(k as int)) == head + peer_entries(
                resp.peers@,
            ),
            buf_bytes(*buf).len() + peer_entries(resp.peers@.skip(k as int)).len()
                <= usize::MAX,
        decreases m - k,
    {
        proof {
            lemma_peer_entries_step(resp.peers@, k as int);
        }
        let p = resp.peers[k];
        buf_put_i32(buf, p.0);
        buf_put_i16(buf, p.1);
        k = k + 1;
    }
    proof {
        assert(resp.peers@.skip(m as int) =~= Seq::<(i32, i16)>::empty());
        assert(buf_bytes(*buf) =~= head + peer_entries(resp.peers@));
        assert(head =~= buf_bytes(*old(buf)) + be4(1) + be4(as_u32(resp.transaction_id)) + be4(
            as_u32(resp.interval),
        ) + be4(as_u32(resp.leechers)) + be4(as_u32(resp.seeders)));
    }
}

/// The packed counter blocks of a scrape answer.
pub open spec fn scrape_entries(ds: Seq<InfoHashScrapeData>) -> Seq<u8>
    decreases ds,
{
    if ds.len() == 0 {
        Seq::empty()
    } else {
        be4(as_u32(ds[0].seeders)) + be4(as_u32(ds[0].completed)) + be4(as_u32(ds[0].leechers))
            + scrape_entries(ds.drop_first())
    }
}

/// Peeling one counter block off the packed list.
proof fn lemma_scrape_entries_step(ds: Seq<InfoHashScrapeData>, k: int)
    requires
        0 <= k < ds.len(),
    ensures
        scrape_entries(ds.skip(k)) == be4(as_u32(ds[k].seeders)) + be4(as_u32(ds[k].completed))
            + be4(as_u32(ds[k].leechers)) + scrape_entries(ds.skip(k + 1)),
{
    let s = ds.skip(k);
    assert(s[0] == ds[k]);
    assert(s.drop_first() =~= ds.skip(k + 1));
    assert(be4(as_u32(s[0].seeders)) + be4(as_u32(s[0].completed)) + be4(as_u32(s[0].leechers))
        + scrape_entries(s.drop_first()) == be4(as_u32(ds[k].seeders)) + be4(
        as_u32(ds[k].completed),
    ) + be4(as_u32(ds[k].leechers)) + scrape_entries(ds.skip(k + 1)));
}

/// The packed counters take twelve bytes per block.
proof fn lemma_scrape_entries_len(ds: Seq<InfoHashScrapeData>)
    ensures
        scrape_entries(ds).len() == 12 * ds.len(),
    decreases ds,
{
    if ds.len() > 0 {
        lemma_scrape_entries_len(ds.drop_first());
    }
}

/// Writes the answer to a scrape: action, transaction, then the counter
/// blocks.
#[verifier::loop_isolation(false)]
pub fn encode_scrape_response(resp: &ScrapeResponse, buf: &mut bytes::BytesMut)
    requires
        buf_bytes(*old(buf)).len() + 8 + 12 * resp.data@.len() <= usize::MAX,
    ensures
        buf_bytes(*final(buf)) == buf_bytes(*old(buf)) + be4(2) + be4(
            as_u32(resp.transaction_id),
        ) + scrape_entries(resp.data@),
{
    buf_put_i32(buf, 2);
    buf_put_i32(buf, resp.transaction_id);
    let ghost head = buf_bytes(*buf);
    proof {
        assert(as_u32(2i32) == 2);
        lemma_scrape_entries_len(resp.data@);
        assert(resp.data@.skip(0) =~= resp.data@);
    }
    let m = resp.data.len();
    let mut k: usize = 0;
    while k < m
        invariant
            k <= m,
            m == resp.data@.len(),
            buf_bytes(*buf) + scrape_entries(resp.data@.skip(k as int)) == head
                + scrape_entries(resp.data@),
            buf_bytes(*buf).len() + scrape_entries(resp.data@.skip(k as int)).len()
                <= usize::MAX,
        decreases m - k,
    {
        proof {
            lemma_scrape_entries_step(resp.data@, k as int);
        }
        let d = &resp.data[k];
        buf_put_i32(buf, d.seeders);
        buf_put_i32(buf, d.completed);
        buf_put_i32(buf, d.leechers);
        k = k + 1;
    }
    proof {
        assert(resp.data@.skip(m as int) =~= Seq::<InfoHashScrapeData>::empty());
        assert(buf_bytes(*buf) =~= head + scrape_entries(resp.data@));
        assert(head =~= buf_bytes(*old(buf)) + be4(2) + be4(as_u32(resp.transaction_id)));
    }
}

/// Writes an error answer: action, transaction, then the message bytes.
pub fn encode_error_response(resp: &ErrorResponse, buf: &mut bytes::BytesMut)
    requires
        buf_bytes(*old(buf)).len() + 8 + encode_utf8(resp.message@).len() <= usize::MAX,
    ensures
        buf_bytes(*final(buf)) == buf_bytes(*old(buf)) + be4(3) + be4(
            as_u32(resp.transaction_id),
        ) + encode_utf8(resp.message@),
{
    buf_put_i32(buf, 3);
    buf_put_i32(buf, resp.transaction_id);
    buf_put_slice(buf, resp.message.as_str().as_bytes());
    proof {
        assert(as_u32(3i32) == 3);
        assert(buf_bytes(*buf) =~= buf_bytes(*old(buf)) + be4(3) + be4(
            as_u32(resp.transaction_id),
        ) + encode_utf8(resp.message@));
    }
}

/// Writes any response into the buffer, dispatching on its kind.
pub fn encode_response(response: &Response, buf: &mut bytes::BytesMut)
    requires
        buf_bytes(*old(buf)).len() + response_len(*response) <= usize::MAX,
    ensures
        buf_bytes(*final(buf)) == buf_bytes(*old(buf)) + response_bytes(*response),
{
    match response {
        Response::Connect(r) => {
            encode_connect_response(r, buf);
        },
        Response::Announce(r) => {
            proof {
                lemma_peer_entries_len(r.peers@);
            }
            encode_announce_response(r, buf);
        },
        Response::Scrape(r) => {
            proof {
                lemma_scrape_entries_len(r.data@);
            }
            encode_scrape_response(r, buf);
        },
        Response::Error(r) => {
            encode_error_response(r, buf);
        },
    }
}

/// The bytes any response writes.
pub open spec fn response_bytes(r: Response) -> Seq<u8> {
    match r {
        Response::Connect(c) => be4(0) + be4(as_u32(c.transaction_id)) + be8(
            as_u64(c.connection_id),
        ),
        Response::Announce(a) => be4(1) + be4(as_u32(a.transaction_id)) + be4(
            as_u32(a.interval),
        ) + be4(as_u32(a.leechers)) + be4(as_u32(a.seeders)) + peer_entries(a.peers@),
        Response::Scrape(s) => be4(2) + be4(as_u32(s.transaction_id)) + scrape_entries(s.data@),
        Response::Error(e) => be4(3) + be4(as_u32(e.transaction_id)) + encode_utf8(e.message@),
    }
}

/// How many bytes a response needs.
pub open spec fn response_len(r: Response) -> int {
    match r {
        Response::Connect(c) => 16,
        Response::Announce(a) => 20 + 6 * (a.peers@.len() as int),
        Response::Scrape(s) => 8 + 12 * (s.data@.len() as int),
        Response::Error(e) => 8 + (encode_utf8(e.message@).len() as int),
    }
}

} // verus!
