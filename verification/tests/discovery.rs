//! Tests of the server and client state machines: duplicate suppression,
//! nickname resolution, record collection, report order, and an
//! end-to-end exchange through the codec.

use lookaround::client::{
    collect_response, datagram_matches_nick, get_peer_nickname, record_datagram, NicknameTable,
    PeerAddr, PeerRecord, PeerTable,
};
use lookaround::message::{Message, Response2};
use lookaround::server::RecentIdemSet;
use lookaround::text::parse_mac;

#[test]
fn test_nicknames() {
    let mut nicks = NicknameTable::new();

    for (k, v) in [("01:01:01:01:01:01", "phoenix")] {
        nicks.insert(parse_mac(k).unwrap(), v.to_string());
    }

    for (num, (mac, peer_nickname), expected) in [
        // Somehow the server returns no MAC nor nick. In this case we are helpless
        (1, (None, None), None),
        // If the server tells us its MAC, we can look up our nickname for it
        (2, (Some([1, 1, 1, 1, 1, 1]), None), Some("phoenix")),
        // Unless it's not in our nick list.
        (3, (Some([1, 1, 1, 1, 1, 2]), None), None),
        // If the server tells us its nickname, that always takes priority
        (4, (None, Some("snowflake")), Some("snowflake")),
        (5, (Some([1, 1, 1, 1, 1, 1]), Some("snowflake")), Some("snowflake")),
        (6, (Some([1, 1, 1, 1, 1, 2]), Some("snowflake")), Some("snowflake")),
        // But blank nicknames are treated like None
        (7, (None, Some("")), None),
        (8, (Some([1, 1, 1, 1, 1, 1]), Some("")), Some("phoenix")),
        (9, (Some([1, 1, 1, 1, 1, 2]), Some("")), None),
    ] {
        let actual = get_peer_nickname(&nicks, mac, peer_nickname.map(str::to_string));
        assert_eq!(actual.as_ref().map(String::as_str), expected, "{}", num);
    }
}

fn plain_request(idem_id: [u8; 8]) -> Vec<Message> {
    vec![Message::Request1 { idem_id, mac: None }]
}

#[test]
fn duplicate_request_answered_once() {
    let mut server = RecentIdemSet::new();
    let mac = Some([1, 2, 3, 4, 5, 6]);
    let nickname = "snowflake".to_string();

    let first = server.handle_datagram(&plain_request([7; 8]), mac, &nickname);
    assert!(first.is_some());
    let second = server.handle_datagram(&plain_request([7; 8]), mac, &nickname);
    assert!(second.is_none());
    // A different token is served again.
    let third = server.handle_datagram(&plain_request([8; 8]), mac, &nickname);
    assert!(third.is_some());
}

#[test]
fn filtered_request_ignored() {
    let mut server = RecentIdemSet::new();
    let msgs = vec![Message::Request1 {
        idem_id: [7; 8],
        mac: Some([9, 9, 9, 9, 9, 9]),
    }];
    assert!(server.handle_datagram(&msgs, None, &"x".to_string()).is_none());
    // Non-request datagrams are ignored too.
    let msgs = vec![Message::Response1(None)];
    assert!(server.handle_datagram(&msgs, None, &"x".to_string()).is_none());
    let msgs: Vec<Message> = vec![];
    assert!(server.handle_datagram(&msgs, None, &"x".to_string()).is_none());
}

#[test]
fn token_list_capacity_evicts_oldest() {
    let mut server = RecentIdemSet::new();
    let nickname = "s".to_string();
    for i in 0..30u8 {
        assert!(server.handle_datagram(&plain_request([i; 8]), None, &nickname).is_some());
    }
    // Token 0 is still remembered; one more request evicts it.
    assert!(server.handle_datagram(&plain_request([0; 8]), None, &nickname).is_none());
    assert!(server.handle_datagram(&plain_request([31; 8]), None, &nickname).is_some());
    assert!(server.handle_datagram(&plain_request([0; 8]), None, &nickname).is_some());
}

#[test]
fn server_reply_carries_mac_and_nickname() {
    let mut server = RecentIdemSet::new();
    let reply = server
        .handle_datagram(
            &plain_request([3; 8]),
            Some([0xaa, 0xbb, 0xcc, 0xdd, 0xee, 0xff]),
            &"snowflake".to_string(),
        )
        .unwrap();
    assert_eq!(reply.len(), 2);
    match &reply[0] {
        Message::Response1(mac) => assert_eq!(*mac, Some([0xaa, 0xbb, 0xcc, 0xdd, 0xee, 0xff])),
        other => panic!("unexpected first reply message: {:?}", other),
    }
    match &reply[1] {
        Message::Response2(r) => {
            assert_eq!(r.idem_id, [3; 8]);
            assert_eq!(r.nickname, "snowflake");
        },
        other => panic!("unexpected second reply message: {:?}", other),
    }
}

#[test]
fn collect_response_last_write_wins() {
    let msgs = vec![
        Message::Response1(Some([1; 6])),
        Message::Response2(Response2 { idem_id: [0; 8], nickname: "a".to_string() }),
        Message::Response1(Some([2; 6])),
        Message::Response2(Response2 { idem_id: [0; 8], nickname: "b".to_string() }),
    ];
    let rec = collect_response(&msgs);
    assert_eq!(rec.mac, Some([2; 6]));
    assert_eq!(rec.nickname, Some("b".to_string()));

    let rec = collect_response(&vec![]);
    assert_eq!(rec.mac, None);
    assert_eq!(rec.nickname, None);
}

#[test]
fn report_sorted_by_mac_unknown_first() {
    let mut peers = PeerTable::new();
    let nicks = NicknameTable::new();
    let addr = |p: u16| PeerAddr { ip: 0x0a000001, port: p };
    let reply = |mac: Option<[u8; 6]>| {
        vec![Message::Response1(mac)]
    };
    record_datagram(&mut peers, &nicks, addr(3), &reply(Some([9, 0, 0, 0, 0, 0])));
    record_datagram(&mut peers, &nicks, addr(1), &reply(Some([1, 0, 0, 0, 0, 2])));
    record_datagram(&mut peers, &nicks, addr(4), &reply(None));
    record_datagram(&mut peers, &nicks, addr(2), &reply(Some([1, 0, 0, 0, 0, 1])));

    let sorted = peers.into_sorted();
    let macs: Vec<Option<[u8; 6]>> = sorted.iter().map(|e| e.1.mac).collect();
    assert_eq!(
        macs,
        vec![
            None,
            Some([1, 0, 0, 0, 0, 1]),
            Some([1, 0, 0, 0, 0, 2]),
            Some([9, 0, 0, 0, 0, 0]),
        ]
    );
}

#[test]
fn repeated_sender_overwrites_its_record() {
    let mut peers = PeerTable::new();
    let nicks = NicknameTable::new();
    let addr = PeerAddr { ip: 0x7f000001, port: 9 };
    record_datagram(&mut peers, &nicks, addr, &vec![Message::Response1(Some([1; 6]))]);
    record_datagram(&mut peers, &nicks, addr, &vec![Message::Response1(Some([2; 6]))]);
    let sorted = peers.into_sorted();
    assert_eq!(sorted.len(), 1);
    assert_eq!(sorted[0].0, addr);
    assert_eq!(sorted[0].1.mac, Some([2; 6]));
}

#[test]
fn find_nick_matches_resolved_name() {
    let mut nicks = NicknameTable::new();
    nicks.insert([1; 6], "phoenix".to_string());
    // Announced name matches directly.
    let msgs = vec![Message::Response2(Response2 {
        idem_id: [0; 8],
        nickname: "snowflake".to_string(),
    })];
    assert!(datagram_matches_nick(&nicks, &msgs, &"snowflake".to_string()));
    assert!(!datagram_matches_nick(&nicks, &msgs, &"phoenix".to_string()));
    // An empty announcement falls back to the override table.
    let msgs = vec![
        Message::Response1(Some([1; 6])),
        Message::Response2(Response2 { idem_id: [0; 8], nickname: "".to_string() }),
    ];
    assert!(datagram_matches_nick(&nicks, &msgs, &"phoenix".to_string()));
}

#[test]
fn end_to_end_loopback_exchange() {
    // A client round against one server, with the datagrams carried by the
    // codec instead of a socket: the client receives exactly one
    // ResponseMac/ResponseNickname pair, and reports the configured name.
    let server_mac = Some([0x11, 0x22, 0x33, 0x44, 0x55, 0x66]);
    let server_nickname = "snowflake".to_string();
    let mut server = RecentIdemSet::new();

    // Broadcast: the same request datagram is transmitted repeatedly.
    let request = Message::new_request1();
    let wire_request = request.to_vec().unwrap();

    let mut peers = PeerTable::new();
    let nicks = NicknameTable::new();
    let server_addr = PeerAddr { ip: 0x7f000001, port: 9040 };
    let mut replies = 0;
    for _ in 0..10 {
        let received = Message::from_slice2(&wire_request).unwrap();
        if let Some(reply) = server.handle_datagram(&received, server_mac, &server_nickname) {
            let wire_reply = Message::many_to_vec(&reply).unwrap();
            let client_view = Message::from_slice2(&wire_reply).unwrap();
            assert_eq!(client_view.len(), 2);
            record_datagram(&mut peers, &nicks, server_addr, &client_view);
            replies += 1;
        }
    }
    // The 10x retransmission drew exactly one reply.
    assert_eq!(replies, 1);

    let report = peers.into_sorted();
    assert_eq!(report.len(), 1);
    assert_eq!(report[0].0, server_addr);
    assert_eq!(report[0].1.mac, server_mac);
    assert_eq!(report[0].1.nickname, Some("snowflake".to_string()));
}
