//! Tests of the text helpers: number, address and MAC parsing, and MAC
//! and report-line formatting.

use lookaround::client::{report_line, PeerAddr, PeerRecord};
use lookaround::text::{format_mac, parse_ipv4, parse_mac, parse_u64};

#[test]
fn parse_u64_accepts_plain_decimals() {
    assert_eq!(parse_u64("0"), Some(0));
    assert_eq!(parse_u64("500"), Some(500));
    assert_eq!(parse_u64("007"), Some(7));
    assert_eq!(parse_u64("18446744073709551615"), Some(u64::MAX));
}

#[test]
fn parse_u64_rejects_junk_and_overflow() {
    assert_eq!(parse_u64(""), None);
    assert_eq!(parse_u64("12a"), None);
    assert_eq!(parse_u64("-1"), None);
    assert_eq!(parse_u64(" 5"), None);
    assert_eq!(parse_u64("18446744073709551616"), None);
}

#[test]
fn parse_ipv4_accepts_dotted_quads() {
    assert_eq!(parse_ipv4("0.0.0.0"), Some(0));
    assert_eq!(parse_ipv4("127.0.0.1"), Some(0x7f000001));
    assert_eq!(parse_ipv4("192.168.1.1"), Some(0xc0a80101));
    assert_eq!(parse_ipv4("255.255.255.255"), Some(0xffffffff));
    assert_eq!(parse_ipv4("225.100.99.98"), Some(0xe1646362));
}

#[test]
fn parse_ipv4_rejects_malformed_addresses() {
    assert_eq!(parse_ipv4(""), None);
    assert_eq!(parse_ipv4("1.2.3"), None);
    assert_eq!(parse_ipv4("1.2.3.4.5"), None);
    assert_eq!(parse_ipv4("256.0.0.1"), None);
    assert_eq!(parse_ipv4("01.2.3.4"), None);
    assert_eq!(parse_ipv4("1..2.3"), None);
    assert_eq!(parse_ipv4("1.2.3."), None);
    assert_eq!(parse_ipv4("a.b.c.d"), None);
    assert_eq!(parse_ipv4("1.2.3.4 "), None);
}

#[test]
fn parse_mac_accepts_colon_hex_either_case() {
    assert_eq!(
        parse_mac("01:01:01:01:01:01"),
        Some([1, 1, 1, 1, 1, 1])
    );
    assert_eq!(
        parse_mac("aa:bb:cc:dd:ee:ff"),
        Some([0xaa, 0xbb, 0xcc, 0xdd, 0xee, 0xff])
    );
    assert_eq!(
        parse_mac("AA:BB:CC:DD:EE:0F"),
        Some([0xaa, 0xbb, 0xcc, 0xdd, 0xee, 0x0f])
    );
}

#[test]
fn parse_mac_rejects_malformed_addresses() {
    assert_eq!(parse_mac(""), None);
    assert_eq!(parse_mac("aa:bb:cc:dd:ee"), None);
    assert_eq!(parse_mac("aa:bb:cc:dd:ee:ff:00"), None);
    assert_eq!(parse_mac("aab:b:cc:dd:ee:ff"), None);
    assert_eq!(parse_mac("aa-bb-cc-dd-ee-ff"), None);
    assert_eq!(parse_mac("gg:bb:cc:dd:ee:ff"), None);
}

#[test]
fn format_mac_is_upper_colon_hex() {
    assert_eq!(
        format_mac(&[0x11, 0x22, 0x33, 0x44, 0x55, 0x66]),
        "11:22:33:44:55:66"
    );
    assert_eq!(
        format_mac(&[0xab, 0xcd, 0xef, 0x00, 0x09, 0x0a]),
        "AB:CD:EF:00:09:0A"
    );
}

#[test]
fn format_then_parse_mac_round_trips() {
    let mac = [0xde, 0xad, 0xbe, 0xef, 0x00, 0x42];
    assert_eq!(parse_mac(&format_mac(&mac)), Some(mac));
}

#[test]
fn report_line_formats() {
    let addr = PeerAddr { ip: 0x0a000005, port: 1234 };
    let unknown = PeerRecord { mac: None, nickname: None };
    assert_eq!(report_line(&addr, &unknown), "<Unknown> = 10.0.0.5:1234");

    let mac_only = PeerRecord {
        mac: Some([0x11, 0x22, 0x33, 0x44, 0x55, 0x66]),
        nickname: None,
    };
    assert_eq!(report_line(&addr, &mac_only), "11:22:33:44:55:66 = 10.0.0.5");

    let full = PeerRecord {
        mac: Some([0x11, 0x22, 0x33, 0x44, 0x55, 0x66]),
        nickname: Some("snowflake".to_string()),
    };
    assert_eq!(
        report_line(&addr, &full),
        "11:22:33:44:55:66 = 10.0.0.5 `snowflake`"
    );
}
