//! The HTTP tracker's protocol types and the decisions its service makes:
//! whether an announce may proceed, and how peer lists are packed into the
//! compact response form. The HTTP plumbing itself lives outside the
//! verified library.

pub mod proto;

use vstd::prelude::*;

use crate::bytebuf::{be2, be4, be16, buf_bytes, buf_new, buf_put_u16, buf_put_u32, buf_put_u128,
    buf_to_vec};
use crate::types::InfoHashStatus;

verus! {

/// Whether an announce for an info-hash with this status may proceed:
/// denied hashes never may, and when only allowed hashes are served,
/// everything not explicitly allowed is refused.
pub fn announce_allowed(status: &InfoHashStatus, only_allowed_info_hashes: bool) -> (r: bool)
    ensures
        r == !(status is ExplicitDeny || (only_allowed_info_hashes && !(status
            is ExplicitAllow))),
{
    match status {
        InfoHashStatus::ExplicitDeny => false,
        InfoHashStatus::ExplicitAllow => true,
        InfoHashStatus::Unknown => !only_allowed_info_hashes,
    }
}

/// The compact wire form of IPv4 peers: four address bytes then two port
/// bytes, big-endian, per peer.
pub open spec fn peers4_bytes(ps: Seq<(u32, u16)>) -> Seq<u8>
    decreases ps,
{
    if ps.len() == 0 {
        Seq::empty()
    } else {
        be4(ps[0].0) + be2(ps[0].1) + peers4_bytes(ps.drop_first())
    }
}

/// The compact wire form of IPv6 peers: sixteen address bytes then two
/// port bytes, big-endian, per peer.
pub open spec fn peers6_bytes(ps: Seq<(u128, u16)>) -> Seq<u8>
    decreases ps,
{
    if ps.len() == 0 {
        Seq::empty()
    } else {
        be16(ps[0].0) + be2(ps[0].1) + peers6_bytes(ps.drop_first())
    }
}

/// Peeling one IPv4 peer off the packed form.
proof fn lemma_peers4_step(ps: Seq<(u32, u16)>, k: int)
    requires
        0 <= k < ps.len(),
    ensures
        peers4_bytes(ps.skip(k)) == be4(ps[k].0) + be2(ps[k].1) + peers4_bytes(ps.skip(k + 1)),
{
    let s = ps.skip(k);
    assert(s[0] == ps[k]);
    assert(s.drop_first() =~= ps.skip(k + 1));
    assert(be4(s[0].0) + be2(s[0].1) + peers4_bytes(s.drop_first()) == be4(ps[k].0) + be2(
        ps[k].1,
    ) + peers4_bytes(ps.skip(k + 1)));
}

/// Peeling one IPv6 peer off the packed form.
proof fn lemma_peers6_step(ps: Seq<(u128, u16)>, k: int)
    requires
        0 <= k < ps.len(),
    ensures
        peers6_bytes(ps.skip(k)) == be16(ps[k].0) + be2(ps[k].1) + peers6_bytes(ps.skip(k + 1)),
{
    let s = ps.skip(k);
    assert(s[0] == ps[k]);
    assert(s.drop_first() =~= ps.skip(k + 1));
    assert(be16(s[0].0) + be2(s[0].1) + peers6_bytes(s.drop_first()) == be16(ps[k].0) + be2(
        ps[k].1,
    ) + peers6_bytes(ps.skip(k + 1)));
}

/// Packs IPv4 peers into the compact response form.
#[verifier::loop_isolation(false)]
pub fn encode_peers_v4(peers: &Vec<(u32, u16)>) -> (r: Vec<u8>)
    requires
        6 * peers@.len() <= usize::MAX,
    ensures
        r@ == peers4_bytes(peers@),
{
    let mut buf = buf_new();
    let mut k: usize = 0;
    proof {
        assert(peers@.skip(0) =~= peers@);
        lemma_peers4_len(peers@);
    }
    while k < peers.len()
        invariant
            k <= peers@.len(),
            buf_bytes(buf) + peers4_bytes(peers@.skip(k as int)) == peers4_bytes(peers@),
            buf_bytes(buf).len() + peers4_bytes(peers@.skip(k as int)).len() <= usize::MAX,
        decreases peers@.len() - k,
    {
        proof {
            lemma_peers4_step(peers@, k as int);
        }
        let p = peers[k];
        buf_put_u32(&mut buf, p.0);
        buf_put_u16(&mut buf, p.1);
        k = k + 1;
    }
    proof {
        assert(peers@.skip(peers@.len() as int) =~= Seq::<(u32, u16)>::empty());
        assert(buf_bytes(buf) =~= peers4_bytes(peers@));
    }
    buf_to_vec(&buf)
}

/// The packed IPv4 form takes six bytes per peer.
proof fn lemma_peers4_len(ps: Seq<(u32, u16)>)
    ensures
        peers4_bytes(ps).len() == 6 * ps.len(),
    decreases ps,
{
    if ps.len() > 0 {
        lemma_peers4_len(ps.drop_first());
    }
}

/// The packed IPv6 form takes eighteen bytes per peer.
proof fn lemma_peers6_len(ps: Seq<(u128, u16)>)
    ensures
        peers6_bytes(ps).len() == 18 * ps.len(),
    decreases ps,
{
    if ps.len() > 0 {
        lemma_peers6_len(ps.drop_first());
    }
}

/// Packs IPv6 peers into the compact response form.
#[verifier::loop_isolation(false)]
#[verifier::rlimit(100)]
#[verifier::spinoff_prover]
pub fn encode_peers_v6(peers: &Vec<(u128, u16)>) -> (r: Vec<u8>)
    requires
        18 * peers@.len() <= usize::MAX,
    ensures
        r@ == peers6_bytes(peers@),
{
    let mut buf = buf_new();
    let mut k: usize = 0;
    proof {
        assert(peers@.skip(0) =~= peers@);
        lemma_peers6_len(peers@);
    }
    while k < peers.len()
        invariant
            k <= peers@.len(),
            buf_bytes(buf) + peers6_bytes(peers@.skip(k as int)) == peers6_bytes(peers@),
            buf_bytes(buf).len() + peers6_bytes(peers@.skip(k as int)).len() <= usize::MAX,
        decreases peers@.len() - k,
    {
        proof {
            lemma_peers6_step(peers@, k as int);
        }
        let p = peers[k];
        buf_put_u128(&mut buf, p.0);
        buf_put_u16(&mut buf, p.1);
        k = k + 1;
    }
    proof {
        assert(peers@.skip(peers@.len() as int) =~= Seq::<(u128, u16)>::empty());
        assert(buf_bytes(buf) =~= peers6_bytes(peers@));
    }
    buf_to_vec(&buf)
}

} // verus!
