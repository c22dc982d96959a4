//! The domain types around the codec: events, moderation decisions, and
//! the compact peer packing of the HTTP tracker.

use hanekawa::admin::{admin_enabled, Error as AdminError, KnownInfoHashRequest};
use hanekawa::http_tracker::proto::Error as HttpError;
use hanekawa::http_tracker::{announce_allowed, encode_peers_v4, encode_peers_v6};
use hanekawa::types::{Event, InfoHash, InfoHashStatus, InfoHashSummary, PeerId, PeerStatistics};

#[test]
fn event_names_are_lowercase() {
    assert_eq!("started", Event::Started.to_string());
    assert_eq!("completed", Event::Completed.to_string());
    assert_eq!("stopped", Event::Stopped.to_string());
    assert_eq!("interval", Event::Interval.to_string());
    assert_eq!(Event::Interval, Event::default());
}

#[test]
fn admin_commands_need_the_api_enabled() {
    assert_eq!(Ok(()), admin_enabled(true));
    assert_eq!(Err(AdminError::NotAllowed), admin_enabled(false));

    let req = KnownInfoHashRequest {
        hex_info_hash: "00ff".to_string(),
        action: InfoHashStatus::ExplicitAllow,
    };
    assert_eq!(InfoHashStatus::ExplicitAllow, req.action);
}

#[test]
fn announce_policy_follows_the_status() {
    assert!(!announce_allowed(&InfoHashStatus::ExplicitDeny, false));
    assert!(!announce_allowed(&InfoHashStatus::ExplicitDeny, true));
    assert!(announce_allowed(&InfoHashStatus::ExplicitAllow, false));
    assert!(announce_allowed(&InfoHashStatus::ExplicitAllow, true));
    assert!(announce_allowed(&InfoHashStatus::Unknown, false));
    assert!(!announce_allowed(&InfoHashStatus::Unknown, true));
}

#[test]
fn packs_compact_peers() {
    let bs4 = encode_peers_v4(&vec![(0x7f000001, 5005)]);
    assert_eq!(vec![127, 0, 0, 1, 19, 141], bs4);

    let bs6 = encode_peers_v6(&vec![(1u128, 5005)]);
    assert_eq!(
        vec![0, 0, 0, 0, 0, 0, 0, 0, 0, 0, 0, 0, 0, 0, 0, 1, 19, 141],
        bs6
    );
}

#[test]
fn info_hash_round_trips_through_hex() {
    let h = InfoHash::from_hex("00ff10").unwrap();
    assert_eq!(vec![0x00, 0xff, 0x10], h.0);
    assert_eq!("00ff10", h.to_hex());
    assert_eq!("00ff10", InfoHash(vec![0x00, 0xff, 0x10]).to_hex());

    assert!(InfoHash::from_hex("0g").is_none());
    assert!(InfoHash::from_hex("abc").is_none());
    assert_eq!(vec![0xAB, 0xCD], InfoHash::from_hex("ABcd").unwrap().0);
}

#[test]
fn domain_types_carry_their_fields() {
    let summary = InfoHashSummary {
        info_hash: InfoHash(vec![1, 2, 3]),
        status: InfoHashStatus::Unknown,
    };
    assert_eq!(vec![1, 2, 3], summary.info_hash.0);

    let peer = PeerId("12345678901234567890".as_bytes().to_vec());
    assert_eq!(20, peer.0.len());

    let stats = PeerStatistics { complete: 3, downloaded: 9, incomplete: 1 };
    assert_eq!(3, stats.complete);

    let err = HttpError::InfoHashNotAllowed("00ff".to_string());
    assert_eq!("00ff", err.reason());
}
