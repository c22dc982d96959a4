//! The UDP tracker wire codec: request parsing, the extension trailer,
//! and response encoding.

use bytes::{BufMut, BytesMut};
use hanekawa::types::Event;
use hanekawa::udp_tracker::bits::{encode_response, parse_request};
use hanekawa::udp_tracker::extensions::{parse_extensions, Extension};
use hanekawa::udp_tracker::proto::{
    AnnounceRequest, ConnectRequest, ConnectResponse, ErrorResponse, Request, Response,
    ScrapeRequest,
};

const PROTOCOL_ID: u64 = 0x41727101980;

#[test]
fn parses_connection_request() {
    let mut buf = BytesMut::new();

    buf.put_u64(PROTOCOL_ID);
    buf.put_i32(0);
    buf.put_i32(42);

    assert_eq!(
        Ok(Request::Connect(ConnectRequest { transaction_id: 42 })),
        parse_request(&buf)
    )
}

#[test]
fn parses_announce_request() {
    let mut buf = BytesMut::new();

    let peer_id = "12345678901234567890";
    let info_hash = "09876543210987654321";

    buf.put_i64(42);
    buf.put_i32(1);
    buf.put_i32(32);
    buf.put_slice(info_hash.as_bytes());
    buf.put_slice(peer_id.as_bytes());
    buf.put_i64(3);
    buf.put_i64(4);
    buf.put_i64(5);
    buf.put_i32(3);
    buf.put_i32(0);
    buf.put_i32(17);
    buf.put_i32(-1);
    buf.put_i16(3001);

    assert_eq!(
        Ok(Request::Announce(AnnounceRequest {
            connection_id: 42,
            transaction_id: 32,
            info_hash: info_hash.to_string(),
            peer_id: peer_id.to_string(),
            downloaded: 3,
            left: 4,
            uploaded: 5,
            event: Some(Event::Stopped),
            ip_address: None,
            key: 17,
            num_want: None,
            port: 3001,
            extensions: Vec::new()
        })),
        parse_request(&buf)
    )
}

#[test]
fn parses_scrape_request() {
    let mut buf = BytesMut::new();

    let info_hash = "01234567890123456789".to_string();
    let num_hashes = 6;

    let mut hashes = Vec::new();
    for _ in 0..num_hashes {
        hashes.push(info_hash.clone());
    }

    buf.put_i64(42);
    buf.put_i32(2);
    buf.put_i32(32);
    for _ in 0..num_hashes {
        buf.put_slice(info_hash.as_bytes())
    }

    assert_eq!(
        Ok(Request::Scrape(ScrapeRequest {
            connection_id: 42,
            transaction_id: 32,
            info_hashes: hashes
        })),
        parse_request(&buf)
    )
}

#[test]
fn parses_implicity_empty_extensions() {
    assert_eq!(Ok((vec![], 0)), parse_extensions(&[]))
}

#[test]
fn parses_explicitly_empty_extensions() {
    let mut buf = BytesMut::new();

    buf.put_u8(0);

    assert_eq!(Ok((vec![], 1)), parse_extensions(&buf))
}

#[test]
fn parses_stops_parsing_empty_extensions() {
    let mut buf = BytesMut::new();

    buf.put_u8(1);
    buf.put_u8(0);
    buf.put_u8(1);

    // One no-op option, then the explicit terminator; the trailing byte is
    // left unconsumed.
    assert_eq!(Ok((vec![Extension::Nop], 2)), parse_extensions(&buf))
}

#[test]
fn parses_nop_extension() {
    let mut buf = BytesMut::new();

    buf.put_u8(1);

    assert_eq!(Ok((vec![Extension::Nop], 1)), parse_extensions(&buf))
}

#[test]
fn parses_urldata() {
    let mut buf = BytesMut::new();

    let opts = "/announce?peer_id=1".to_string();

    buf.put_u8(2);
    buf.put_u8(opts.len() as u8);
    buf.put_slice(opts.as_bytes());

    assert_eq!(
        Ok((vec![Extension::UrlData(opts.clone())], 2 + opts.len())),
        parse_extensions(&buf)
    )
}

#[test]
fn parses_unknown_data() {
    let mut buf = BytesMut::new();

    let opts = "mystery".to_string();

    buf.put_u8(127);
    buf.put_u8(opts.len() as u8);
    buf.put_slice(opts.as_bytes());

    assert_eq!(
        Ok((vec![Extension::Unknown(127, opts.clone())], 2 + opts.len())),
        parse_extensions(&buf)
    )
}

#[test]
fn parses_announce_request_with_extensions() {
    let mut buf = BytesMut::new();

    buf.put_i64(1);
    buf.put_i32(1);
    buf.put_i32(2);
    buf.put_slice("09876543210987654321".as_bytes());
    buf.put_slice("12345678901234567890".as_bytes());
    buf.put_i64(0);
    buf.put_i64(0);
    buf.put_i64(0);
    buf.put_i32(0);
    buf.put_i32(7);
    buf.put_i32(0);
    buf.put_i32(5);
    buf.put_i16(1);
    // One no-op option, then a URL-data option.
    buf.put_u8(1);
    buf.put_u8(2);
    buf.put_u8(2);
    buf.put_slice("/a".as_bytes());

    match parse_request(&buf) {
        Ok(Request::Announce(a)) => {
            assert_eq!(None, a.event);
            assert_eq!(Some(7), a.ip_address);
            assert_eq!(Some(5), a.num_want);
            assert_eq!(
                vec![Extension::Nop, Extension::UrlData("/a".to_string())],
                a.extensions
            );
        }
        other => panic!("expected an announce, got {:?}", other),
    }
}

#[test]
fn rejects_garbage_datagrams() {
    assert!(parse_request(&[]).is_err());
    assert!(parse_request(&[1, 2, 3]).is_err());

    // Sixteen bytes without the magic number fit no request.
    let mut buf = BytesMut::new();
    buf.put_u64(7);
    buf.put_i32(0);
    buf.put_i32(42);
    assert!(parse_request(&buf).is_err());
}

#[test]
fn rejects_announce_with_unknown_event() {
    let mut buf = BytesMut::new();
    buf.put_i64(42);
    buf.put_i32(1);
    buf.put_i32(32);
    buf.put_slice("09876543210987654321".as_bytes());
    buf.put_slice("12345678901234567890".as_bytes());
    buf.put_i64(3);
    buf.put_i64(4);
    buf.put_i64(5);
    buf.put_i32(9);
    buf.put_i32(0);
    buf.put_i32(17);
    buf.put_i32(-1);
    buf.put_i16(3001);
    assert!(parse_request(&buf).is_err());
}

#[test]
fn encodes_connect_response() {
    let mut buf = BytesMut::new();
    encode_response(
        &Response::Connect(ConnectResponse { transaction_id: 42, connection_id: 7 }),
        &mut buf,
    );

    let mut expected = BytesMut::new();
    expected.put_i32(0);
    expected.put_i32(42);
    expected.put_i64(7);
    assert_eq!(expected.to_vec(), buf.to_vec());
}

#[test]
fn encodes_error_response() {
    let mut buf = BytesMut::new();
    encode_response(
        &Response::Error(ErrorResponse {
            transaction_id: -1,
            message: "nope".to_string(),
        }),
        &mut buf,
    );

    let mut expected = BytesMut::new();
    expected.put_i32(3);
    expected.put_i32(-1);
    expected.put_slice("nope".as_bytes());
    assert_eq!(expected.to_vec(), buf.to_vec());
}
