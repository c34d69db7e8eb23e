//! Tests of the framing layer and the message codec: exact wire bytes,
//! round trips, and every decode error.

use lookaround::message::{Message, MessageError, Response2};
use lookaround::tlv::{Reader, TlvError, Writer};

#[test]
fn test_1() -> Result<(), TlvError> {
    let b = "hi there".as_bytes();

    let mut w = Writer::new();

    w.lv_bytes(b)?;

    let v = w.into_inner();

    assert_eq!(v, vec![8, 0, 0, 0, 104, 105, 32, 116, 104, 101, 114, 101,]);

    let mut r = Reader::new(&v);

    let buf = r.lv_bytes_to_vec(1024)?;

    assert_eq!(buf.len(), b.len());
    assert_eq!(b, &buf);

    Ok(())
}

#[test]
fn test_write_2() {
    for (input, expected) in [
        (
            vec![Message::Request1 {
                idem_id: [1, 2, 3, 4, 5, 6, 7, 8],
                mac: None,
            }],
            vec![
                154, 74, 67, 129, // Request tag
                1,   // Idem ID
                1, 2, 3, 4, 5, 6, 7, 8, // MAC is None
                0,
            ],
        ),
        (
            vec![
                Message::Response1(Some([0x11, 0x22, 0x33, 0x44, 0x55, 0x66])),
                Message::Response2(Response2 {
                    idem_id: [1, 2, 3, 4, 5, 6, 7, 8],
                    nickname: ":V".to_string(),
                }),
            ],
            vec![
                // Magic number
                154, 74, 67, 129, // Response1 tag
                2,  // MAC is Some
                1,  // MAC
                17, 34, 51, 68, 85, 102, // Response2 tag
                3,  // Length prefix
                14, 0, 0, 0, // Idem ID
                1, 2, 3, 4, 5, 6, 7, 8, // Length-prefixed string
                2, 0, 0, 0, 58, 86,
            ],
        ),
    ] {
        let actual = Message::many_to_vec(&input).unwrap();
        assert_eq!(actual, expected, "{:?}", input);
    }
}

#[test]
fn test_write_1() {
    for (input, expected) in [
        (
            Message::Request1 {
                idem_id: [0x01, 0x02, 0x03, 0x04, 0x05, 0x06, 0x07, 0x08],
                mac: None,
            },
            vec![
                154, 74, 67, 129, // Request tag
                1,   // Idem ID
                1, 2, 3, 4, 5, 6, 7, 8, // MAC is None
                0,
            ],
        ),
        (
            Message::Response1(Some([0x11, 0x22, 0x33, 0x44, 0x55, 0x66])),
            vec![
                // Magic number
                154, 74, 67, 129, // Response tag
                2,  // MAC is Some
                1,  // MAC
                17, 34, 51, 68, 85, 102,
            ],
        ),
        (
            Message::Response1(None),
            vec![
                // Magic number
                154, 74, 67, 129, // Response tag
                2,  // MAC is None
                0,
            ],
        ),
    ]
    .into_iter()
    {
        let actual = input.to_vec().unwrap();
        assert_eq!(actual, expected, "{:?}", input);
    }
}

#[test]
fn test_read_2() {
    for input in [
        vec![Message::Request1 {
            idem_id: [0x01, 0x02, 0x03, 0x04, 0x05, 0x06, 0x07, 0x08],
            mac: None,
        }],
        vec![Message::Response1(Some([0x11, 0x22, 0x33, 0x44, 0x55, 0x66]))],
        vec![Message::Response1(None)],
        vec![
            Message::Response1(Some([0x11, 0x22, 0x33, 0x44, 0x55, 0x66])),
            Message::Response2(Response2 {
                idem_id: [1, 2, 3, 4, 5, 6, 7, 8],
                nickname: ":V".to_string(),
            }),
        ],
    ]
    .into_iter()
    {
        let encoded = Message::many_to_vec(&input).unwrap();
        let decoded = Message::from_slice2(&encoded).unwrap();
        assert_eq!(input, decoded);
    }
}

#[test]
fn round_trip_request_with_mac_filter() {
    let msgs = vec![Message::Request1 {
        idem_id: [9, 8, 7, 6, 5, 4, 3, 2],
        mac: Some([1, 2, 3, 4, 5, 6]),
    }];
    let encoded = Message::many_to_vec(&msgs).unwrap();
    let decoded = Message::from_slice2(&encoded).unwrap();
    assert_eq!(msgs, decoded);
}

#[test]
fn round_trip_unicode_nickname() {
    let msgs = vec![Message::Response2(Response2 {
        idem_id: [0; 8],
        nickname: "hôte río".to_string(),
    })];
    let encoded = Message::many_to_vec(&msgs).unwrap();
    let decoded = Message::from_slice2(&encoded).unwrap();
    assert_eq!(msgs, decoded);
}

#[test]
fn round_trip_empty_datagram() {
    let msgs: Vec<Message> = vec![];
    let encoded = Message::many_to_vec(&msgs).unwrap();
    assert_eq!(encoded, vec![154, 74, 67, 129]);
    let decoded = Message::from_slice2(&encoded).unwrap();
    assert_eq!(msgs, decoded);
}

#[test]
fn magic_mismatch_always_rejected() {
    // A valid datagram with its first byte corrupted.
    let msg = Message::Response1(None);
    let mut bytes = msg.to_vec().unwrap();
    bytes[0] = 0x00;
    assert!(matches!(
        Message::from_slice2(&bytes),
        Err(MessageError::Tlv(TlvError::MagicMismatch))
    ));
    // Arbitrary garbage after a wrong preamble changes nothing.
    let garbage = vec![1, 2, 3, 4, 255, 255, 255];
    assert!(matches!(
        Message::from_slice2(&garbage),
        Err(MessageError::Tlv(TlvError::MagicMismatch))
    ));
}

#[test]
fn truncated_datagram_rejected() {
    // Shorter than the magic itself.
    assert!(matches!(
        Message::from_slice2(&[154, 74, 67]),
        Err(MessageError::Tlv(TlvError::TruncatedInput))
    ));
    // A request cut off inside its idempotency token.
    assert!(matches!(
        Message::from_slice2(&[154, 74, 67, 129, 1, 1, 2, 3]),
        Err(MessageError::Tlv(TlvError::TruncatedInput))
    ));
}

#[test]
fn unknown_tag_rejected() {
    assert!(matches!(
        Message::from_slice2(&[154, 74, 67, 129, 9]),
        Err(MessageError::UnknownTag)
    ));
}

#[test]
fn invalid_utf8_nickname_rejected() {
    // Tag 3, body length 13, token, then a 1-byte nickname that is not UTF-8.
    let bytes = vec![
        154, 74, 67, 129, 3, 13, 0, 0, 0, 1, 2, 3, 4, 5, 6, 7, 8, 1, 0, 0, 0, 0xff,
    ];
    assert!(matches!(
        Message::from_slice2(&bytes),
        Err(MessageError::InvalidUtf8)
    ));
}

#[test]
fn oversized_nickname_length_rejected() {
    // Tag 3, plausible body length, token, then a declared nickname length
    // of 65 bytes: over the 64-byte cap, rejected before any read.
    let bytes = vec![
        154, 74, 67, 129, 3, 77, 0, 0, 0, 1, 2, 3, 4, 5, 6, 7, 8, 65, 0, 0, 0,
    ];
    assert!(matches!(
        Message::from_slice2(&bytes),
        Err(MessageError::Tlv(TlvError::DataTooBig))
    ));
}

#[test]
fn huge_declared_length_rejected_without_allocation() {
    let mut w = Writer::new();
    // Declared length of about 4 billion, with only two bytes behind it.
    w.length(0xffff_ffff);
    w.write_bytes(&[1, 2]);
    let v = w.into_inner();
    let mut r = Reader::new(&v);
    assert!(matches!(r.lv_bytes_to_vec(64), Err(TlvError::DataTooBig)));
}

#[test]
fn reader_expect_and_u8() {
    let buf = vec![10, 20, 30];
    let mut r = Reader::new(&buf);
    assert!(r.expect(&[10, 20]).is_ok());
    assert_eq!(r.u8().unwrap(), 30);
    assert!(matches!(r.u8(), Err(TlvError::TruncatedInput)));

    let mut r2 = Reader::new(&buf);
    assert!(matches!(r2.expect(&[10, 21]), Err(TlvError::MagicMismatch)));
    let mut r3 = Reader::new(&buf);
    assert!(matches!(
        r3.expect(&[10, 20, 30, 40]),
        Err(TlvError::TruncatedInput)
    ));
}

#[test]
fn new_request1_is_plain_broadcast_query() {
    let encoded = Message::new_request1().to_vec().unwrap();
    let decoded = Message::from_slice2(&encoded).unwrap();
    assert_eq!(decoded.len(), 1);
    match &decoded[0] {
        Message::Request1 { mac, .. } => assert_eq!(*mac, None),
        other => panic!("expected a request, got {:?}", other),
    }
}
