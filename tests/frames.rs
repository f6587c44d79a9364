use stomp_frames::builder::{BuildError, ErrorFrame, FrameBuilder};
use stomp_frames::frame::{parse_client, parse_server, ParseError};
use stomp_frames::schema::{Command, HeaderName};
use stomp_frames::values::{AckType, HeaderValue, HeartBeatIntervals, StompVersion};

#[test]
fn parses_stomp_frame() {
    let result = parse_client(
        "STOMP\nhost:foo\naccept-version:1.1\nheart-beat:10,20\n\n\u{00}"
            .as_bytes()
            .to_owned(),
    );

    if let Ok(frame) = result {
        assert_eq!(frame.command, Command::Connect);
        match frame.header(HeaderName::AcceptVersion) {
            Some(HeaderValue::Versions(v)) => assert_eq!(StompVersion::V1_1, v[0]),
            _ => panic!("Expected a connect frame"),
        }
        assert_eq!(frame.text(HeaderName::Host), Some(&b"foo"[..]));
        match frame.header(HeaderName::HeartBeat) {
            Some(HeaderValue::HeartBeat(h)) => {
                assert_eq!(*h, HeartBeatIntervals { supplied: 10, expected: 20 })
            }
            _ => panic!("Expected a connect frame"),
        }
    } else {
        panic!("Expected a connect frame")
    }
}

#[test]
fn writes_connected_frame() {
    let mut builder = FrameBuilder::new(Command::Connected);
    builder.typed(HeaderName::Version, HeaderValue::Version(StompVersion::V1_1));
    builder.typed(
        HeaderName::HeartBeat,
        HeaderValue::HeartBeat(HeartBeatIntervals { supplied: 20, expected: 10 }),
    );
    let frame = builder.build().expect("Should be ok");

    let displayed = String::from_utf8(frame.render()).unwrap();

    assert_eq!("CONNECTED\nversion:1.1\nheart-beat:20,10\n\n\u{00}", displayed);
}

#[test]
fn writes_message_frame() {
    let body = b"Lorem ipsum dolor sit amet,".to_vec();

    let mut builder = FrameBuilder::new(Command::Message);
    builder.text(HeaderName::MessageId, b"msg-1");
    builder.text(HeaderName::Destination, b"path/to/hell");
    builder.text(HeaderName::Subscription, b"annual");
    builder.text(HeaderName::ContentType, b"foo/bar");
    builder.body(&body);
    let frame = builder.build().expect("Should be ok");

    let displayed = String::from_utf8(frame.render()).unwrap();

    assert_eq!(
        "MESSAGE\n\
        message-id:msg-1\n\
        destination:path/to/hell\n\
        subscription:annual\n\
        content-type:foo/bar\n\
        \n\
        Lorem ipsum dolor sit amet,\u{00}",
        displayed
    );
}

#[test]
fn writes_message_frame_bytes() {
    let body = b"Lorem ipsum dolor sit amet,".to_vec();

    let mut builder = FrameBuilder::new(Command::Message);
    builder.text(HeaderName::MessageId, b"msg-1");
    builder.text(HeaderName::Destination, b"path/to/hell");
    builder.text(HeaderName::Subscription, b"annual");
    builder.text(HeaderName::ContentType, b"foo/bar");
    builder.body(&body);

    let frame = builder.build().expect("Should be ok");

    let bytes: Vec<u8> = frame.render();

    assert_eq!(
        b"MESSAGE\n\
        message-id:msg-1\n\
        destination:path/to/hell\n\
        subscription:annual\n\
        content-type:foo/bar\n\
        \n\
        Lorem ipsum dolor sit amet,\x00",
        bytes.as_slice()
    );
}

#[test]
fn writes_binary_message_frame() {
    let body = vec![0, 1, 1, 2, 3, 5, 8, 13];

    let mut builder = FrameBuilder::new(Command::Message);
    builder.text(HeaderName::MessageId, b"msg-1");
    builder.text(HeaderName::Destination, b"path/to/hell");
    builder.text(HeaderName::Subscription, b"annual");
    builder.text(HeaderName::ContentType, b"foo/bar");
    builder.body(&body);

    let frame = builder.build().expect("Should be ok");

    let bytes: Vec<u8> = frame.render();

    assert_eq!(
        b"MESSAGE\n\
        message-id:msg-1\n\
        destination:path/to/hell\n\
        subscription:annual\n\
        content-type:foo/bar\n\
        \n\
        \x00\x01\x01\x02\x03\x05\x08\x0d\
        \x00",
        bytes.as_slice()
    );
}

#[test]
fn parses_send_frame() {
    let message = b"SEND\n\
        destination:stairway/to/heaven\n\
        \n\
        Lorem ipsum dolor sit amet,...\x00"
        .to_vec();

    if let Ok(frame) = parse_client(message) {
        assert_eq!(frame.command, Command::Send);
        assert_eq!(
            "Lorem ipsum dolor sit amet,...",
            std::str::from_utf8(frame.body().unwrap()).unwrap()
        );
    } else {
        panic!("Send Frame not parsed correctly");
    }
}

#[test]
fn does_not_copy() {
    let message = b"SEND\n\
        destination:stairway/to/heaven\n\
        funky:doodle\n\
        \n\
        Lorem ipsum dolor sit amet,...\x00"
        .to_vec();

    let source = message.as_ptr() as usize;
    let source_len = message.len();
    let in_range = |a: usize| {
        assert!(a >= source && a <= source + source_len, "offset not in range");
    };

    if let Ok(frame) = parse_client(message) {
        in_range(frame.body().unwrap().as_ptr() as usize);
        in_range(frame.text(HeaderName::Destination).unwrap().as_ptr() as usize);
        let (name, value) = frame.custom_header(0);
        assert_eq!(name, b"funky");
        assert_eq!(value, b"doodle");
        in_range(value.as_ptr() as usize);
        in_range(name.as_ptr() as usize);
    } else {
        panic!("Send Frame not parsed correctly");
    }
}

#[test]
fn parses_binary_send_frame() {
    let message = b"SEND\n\
        destination:stairway/to/heaven\n\
        \n\
        \x00\x01\x01\x02\x03\x05\x08\x0d\
        \x00"
        .to_vec();

    if let Ok(frame) = parse_client(message) {
        assert_eq!(&[0u8, 1, 1, 2, 3, 5, 8, 13], frame.body().unwrap());
    } else {
        panic!("Send Frame not parsed correctly");
    }
}
