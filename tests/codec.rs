use stomp_frames::builder::{BuildError, ErrorFrame, FrameBuilder};
use stomp_frames::escape::{escape, unescape_in_place};
use stomp_frames::frame::{parse_client, parse_server, ParseError};
use stomp_frames::schema::{Command, HeaderName};
use stomp_frames::text::{parse_u64, push_decimal};
use stomp_frames::values::{AckType, HeaderValue, HeartBeatIntervals, StompVersion};

#[test]
fn escape_then_unescape_gives_input_back() {
    let s = b"a:b\\c\nd\re".to_vec();
    let e = escape(&s);
    assert_eq!(e, b"a\\cb\\\\c\\nd\\re".to_vec());
    let mut buf = e.clone();
    let n = buf.len();
    let w = unescape_in_place(&mut buf, 0, n).unwrap();
    assert_eq!(&buf[..w], &s[..]);
}

#[test]
fn unknown_escape_is_rejected() {
    let mut buf = b"ab\\t".to_vec();
    assert_eq!(unescape_in_place(&mut buf, 0, 4), None);
    let mut dangling = b"ab\\".to_vec();
    assert_eq!(unescape_in_place(&mut dangling, 0, 3), None);
}

#[test]
fn escaped_header_is_decoded() {
    let f = parse_client(b"SEND\ndestination:a\\cb\\\\c\n\n\x00".to_vec()).unwrap();
    assert_eq!(f.text(HeaderName::Destination), Some(&b"a:b\\c"[..]));
}

#[test]
fn connect_headers_are_not_decoded() {
    let f = parse_client(b"CONNECT\nhost:a\\cb\naccept-version:1.2\n\n\x00".to_vec()).unwrap();
    assert_eq!(f.text(HeaderName::Host), Some(&b"a\\cb"[..]));
    assert_eq!(
        f.render(),
        b"CONNECT\nhost:a\\cb\naccept-version:1.2\n\n\x00".to_vec()
    );
}

#[test]
fn stomp_renders_as_connect() {
    let f = parse_client(b"STOMP\naccept-version:1.0,1.2\nhost:h\n\n\x00".to_vec()).unwrap();
    assert_eq!(f.command, Command::Connect);
    assert_eq!(f.render(), b"CONNECT\nhost:h\naccept-version:1.0,1.2\n\n\x00".to_vec());
}

#[test]
fn missing_required_header() {
    assert_eq!(
        parse_client(b"SEND\n\nhello\x00".to_vec()).err(),
        Some(ParseError::MissingHeader(HeaderName::Destination))
    );
}

#[test]
fn invalid_header_value() {
    assert_eq!(
        parse_client(b"CONNECT\nhost:h\naccept-version:2.0\n\n\x00".to_vec()).err(),
        Some(ParseError::InvalidHeaderValue(HeaderName::AcceptVersion))
    );
    assert_eq!(
        parse_client(b"SEND\ndestination:d\ncontent-length:18446744073709551616\n\n\x00".to_vec())
            .err(),
        Some(ParseError::InvalidHeaderValue(HeaderName::ContentLength))
    );
}

#[test]
fn first_duplicate_wins() {
    let f = parse_client(b"SEND\ndestination:first\ndestination:second\n\n\x00".to_vec()).unwrap();
    assert_eq!(f.text(HeaderName::Destination), Some(&b"first"[..]));
    assert_eq!(f.custom_count(), 0);
}

#[test]
fn content_length_takes_body_with_nul() {
    let f = parse_client(b"SEND\ndestination:d\ncontent-length:4\n\nab\x00d\x00".to_vec()).unwrap();
    assert_eq!(f.body().unwrap(), b"ab\x00d");
    match f.header(HeaderName::ContentLength) {
        Some(HeaderValue::Length(n)) => assert_eq!(*n, 4),
        _ => panic!("content-length expected"),
    }
}

#[test]
fn content_length_mismatch_is_invalid_body() {
    assert_eq!(
        parse_client(b"SEND\ndestination:d\ncontent-length:3\n\nabcd\x00".to_vec()).err(),
        Some(ParseError::InvalidBody)
    );
}

#[test]
fn unknown_command() {
    assert_eq!(parse_client(b"FOO\n\n\x00".to_vec()).err(), Some(ParseError::UnknownCommand));
}

#[test]
fn wrong_direction() {
    assert_eq!(
        parse_client(b"RECEIPT\nreceipt-id:7\n\n\x00".to_vec()).err(),
        Some(ParseError::WrongDirection(Command::Receipt))
    );
    assert_eq!(
        parse_server(b"SEND\ndestination:d\n\n\x00".to_vec()).err(),
        Some(ParseError::WrongDirection(Command::Send))
    );
}

#[test]
fn header_without_colon_is_malformed() {
    assert_eq!(
        parse_client(b"SEND\ndestination\n\n\x00".to_vec()).err(),
        Some(ParseError::MalformedHeader)
    );
}

#[test]
fn body_where_none_is_allowed() {
    assert_eq!(
        parse_client(b"BEGIN\ntransaction:t\n\nxyz\x00".to_vec()).err(),
        Some(ParseError::InvalidBody)
    );
    let f = parse_client(b"BEGIN\ntransaction:t\n\n\x00".to_vec()).unwrap();
    assert_eq!(f.body(), None);
}

#[test]
fn unterminated_frame() {
    assert_eq!(
        parse_client(b"SEND\ndestination:a\n\nabc".to_vec()).err(),
        Some(ParseError::InvalidBody)
    );
    assert_eq!(parse_client(b"SEND".to_vec()).err(), Some(ParseError::InvalidBody));
}

#[test]
fn carriage_returns_are_dropped() {
    let f = parse_client(b"SEND\r\ndestination:a\r\n\r\nhi\x00".to_vec()).unwrap();
    assert_eq!(f.text(HeaderName::Destination), Some(&b"a"[..]));
    assert_eq!(f.body().unwrap(), b"hi");
}

#[test]
fn builder_reports_missing_required() {
    let mut b = FrameBuilder::new(Command::Message);
    b.text(HeaderName::MessageId, b"m");
    b.text(HeaderName::Subscription, b"s");
    assert_eq!(
        b.build().err(),
        Some(BuildError::MissingRequired(HeaderName::Destination))
    );
}

#[test]
fn error_frame_from_message() {
    let e = ErrorFrame::from_message("boom");
    assert_eq!(e.frame.command, Command::Error);
    assert_eq!(e.frame.body().unwrap(), b"boom");
    assert_eq!(e.frame.render(), b"ERROR\n\nboom\x00".to_vec());
}

#[test]
fn render_escapes_values_and_keeps_custom_order() {
    let mut b = FrameBuilder::new(Command::Send);
    b.text(HeaderName::Destination, b"a:b\n");
    b.custom_header(b"z", b"1");
    b.custom_header(b"a", b"2");
    b.typed(HeaderName::ContentLength, HeaderValue::Length(0));
    b.body(b"");
    let f = b.build().unwrap();
    assert_eq!(
        f.render(),
        b"SEND\ndestination:a\\cb\\n\ncontent-length:0\nz:1\na:2\n\n\x00".to_vec()
    );
}

#[test]
fn custom_header_ignored_where_not_allowed() {
    let mut b = FrameBuilder::new(Command::Ack);
    b.text(HeaderName::Id, b"1");
    b.text(HeaderName::Transaction, b"t");
    b.custom_header(b"x", b"y");
    b.text(HeaderName::Destination, b"nowhere");
    let f = b.build().unwrap();
    assert_eq!(f.custom_count(), 0);
    assert_eq!(f.render(), b"ACK\nid:1\ntransaction:t\n\n\x00".to_vec());
}

#[test]
fn subscribe_ack_mode() {
    let f = parse_client(
        b"SUBSCRIBE\ndestination:/q\nid:0\nack:client-individual\nx-extra:v\n\n\x00".to_vec(),
    )
    .unwrap();
    match f.header(HeaderName::Ack) {
        Some(HeaderValue::Ack(a)) => assert_eq!(*a, AckType::ClientIndividual),
        _ => panic!("ack expected"),
    }
    assert_eq!(f.custom_count(), 1);
    assert_eq!(f.custom_header(0), (&b"x-extra"[..], &b"v"[..]));
}

#[test]
fn round_trip_send() {
    let mut b = FrameBuilder::new(Command::Send);
    b.text(HeaderName::Destination, b"/queue/a:b");
    b.text(HeaderName::Receipt, b"r\\1");
    b.custom_header(b"k:1", b"v\n2");
    b.body(b"payload");
    let f = b.build().unwrap();
    let bytes = f.render();
    let g = parse_client(bytes.clone()).unwrap();
    assert_eq!(g.command, Command::Send);
    assert_eq!(g.text(HeaderName::Destination), Some(&b"/queue/a:b"[..]));
    assert_eq!(g.text(HeaderName::Receipt), Some(&b"r\\1"[..]));
    assert_eq!(g.custom_header(0), (&b"k:1"[..], &b"v\n2"[..]));
    assert_eq!(g.body().unwrap(), b"payload");
    assert_eq!(g.render(), bytes);
}

#[test]
fn render_is_deterministic() {
    let f = parse_server(b"CONNECTED\nversion:1.2\nsession:s\n\n\x00".to_vec()).unwrap();
    assert_eq!(f.render(), f.render());
    assert_eq!(f.render(), b"CONNECTED\nversion:1.2\nsession:s\n\n\x00".to_vec());
}

#[test]
fn decimal_numbers() {
    let mut out = Vec::new();
    push_decimal(18446744073709551615, &mut out);
    assert_eq!(out, b"18446744073709551615".to_vec());
    assert_eq!(parse_u64(b"0042"), Some(42));
    assert_eq!(parse_u64(b""), None);
    assert_eq!(parse_u64(b"4x"), None);
    let f = parse_server(b"CONNECTED\nversion:1.1\nheart-beat:0,18446744073709551615\n\n\x00".to_vec())
        .unwrap();
    match f.header(HeaderName::HeartBeat) {
        Some(HeaderValue::HeartBeat(h)) => {
            assert_eq!(*h, HeartBeatIntervals { supplied: 0, expected: u64::MAX })
        }
        _ => panic!("heart-beat expected"),
    }
    let _ = StompVersion::V1_0;
}

#[test]
fn defaults_apply_when_absent() {
    let c = parse_client(b"CONNECT\nhost:h\naccept-version:1.2\n\n\x00".to_vec()).unwrap();
    assert_eq!(c.heart_beat_or_default(), HeartBeatIntervals { supplied: 0, expected: 0 });
    assert_eq!(c.header(HeaderName::HeartBeat).is_none(), true);
    assert_eq!(c.render(), b"CONNECT\nhost:h\naccept-version:1.2\n\n\x00".to_vec());
    let s = parse_client(b"SUBSCRIBE\ndestination:/q\nid:0\n\n\x00".to_vec()).unwrap();
    assert_eq!(s.ack_or_default(), AckType::Auto);
    let t = parse_client(b"SUBSCRIBE\ndestination:/q\nid:0\nack:client\n\n\x00".to_vec()).unwrap();
    assert_eq!(t.ack_or_default(), AckType::Client);
}

#[test]
fn typed_values_render_and_read_back() {
    let mut b = FrameBuilder::new(Command::Connect);
    b.text(HeaderName::Host, b"broker");
    b.typed(
        HeaderName::AcceptVersion,
        HeaderValue::Versions(vec![StompVersion::V1_0, StompVersion::V1_1, StompVersion::V1_2]),
    );
    b.typed(
        HeaderName::HeartBeat,
        HeaderValue::HeartBeat(HeartBeatIntervals { supplied: 1000, expected: 7 }),
    );
    let bytes = b.build().unwrap().render();
    assert_eq!(
        bytes,
        b"CONNECT\nhost:broker\naccept-version:1.0,1.1,1.2\nheart-beat:1000,7\n\n\x00".to_vec()
    );
    let f = parse_client(bytes).unwrap();
    match f.header(HeaderName::AcceptVersion) {
        Some(HeaderValue::Versions(v)) => {
            assert_eq!(v, &vec![StompVersion::V1_0, StompVersion::V1_1, StompVersion::V1_2])
        }
        _ => panic!("versions expected"),
    }
    assert_eq!(f.heart_beat_or_default(), HeartBeatIntervals { supplied: 1000, expected: 7 });
}
