use peerguard::addr::{format_ip, parse_ip, IpAddress};
use peerguard::digits::{format_dec_u64, format_hex_u16};

#[test]
fn test_format_dec() {
    assert_eq!(format_dec_u64(0), b"0".to_vec());
    assert_eq!(format_dec_u64(7), b"7".to_vec());
    assert_eq!(format_dec_u64(10), b"10".to_vec());
    assert_eq!(format_dec_u64(255), b"255".to_vec());
    assert_eq!(format_dec_u64(1000), b"1000".to_vec());
}

#[test]
fn test_format_hex() {
    assert_eq!(format_hex_u16(0), b"0".to_vec());
    assert_eq!(format_hex_u16(0x2001), b"2001".to_vec());
    assert_eq!(format_hex_u16(0x0db8), b"db8".to_vec());
    assert_eq!(format_hex_u16(0xffff), b"ffff".to_vec());
}

#[test]
fn test_format_v4() {
    assert_eq!(format_ip(IpAddress::V4(8, 8, 8, 8)), b"8.8.8.8".to_vec());
    assert_eq!(format_ip(IpAddress::V4(192, 168, 1, 100)), b"192.168.1.100".to_vec());
    assert_eq!(format_ip(IpAddress::V4(0, 0, 0, 0)), b"0.0.0.0".to_vec());
}

#[test]
fn test_format_v6() {
    assert_eq!(
        format_ip(IpAddress::V6(0x2001, 0xdb8, 0, 0, 0, 0, 0, 1)),
        b"2001:db8:0:0:0:0:0:1".to_vec()
    );
    assert_eq!(
        format_ip(IpAddress::V6(0, 0, 0, 0, 0, 0, 0, 0)),
        b"0:0:0:0:0:0:0:0".to_vec()
    );
}

#[test]
fn test_parse_v4_valid() {
    assert_eq!(parse_ip(b"10.0.0.2"), Some(IpAddress::V4(10, 0, 0, 2)));
    assert_eq!(parse_ip(b"255.255.255.255"), Some(IpAddress::V4(255, 255, 255, 255)));
    assert_eq!(parse_ip(b"0.0.0.0"), Some(IpAddress::V4(0, 0, 0, 0)));
}

#[test]
fn test_parse_v4_invalid() {
    assert_eq!(parse_ip(b"not-an-ip"), None);
    assert_eq!(parse_ip(b""), None);
    assert_eq!(parse_ip(b"256.1.1.1"), None);
    assert_eq!(parse_ip(b"01.2.3.4"), None);
    assert_eq!(parse_ip(b"1.2.3"), None);
    assert_eq!(parse_ip(b"1.2.3.4.5"), None);
    assert_eq!(parse_ip(b"1.2.3."), None);
    assert_eq!(parse_ip(b"1.2.3.4 "), None);
}

#[test]
fn test_parse_v6_valid() {
    assert_eq!(
        parse_ip(b"2001:db8:0:0:0:0:0:1"),
        Some(IpAddress::V6(0x2001, 0xdb8, 0, 0, 0, 0, 0, 1))
    );
    assert_eq!(
        parse_ip(b"2001:DB8:0:0:0:0:0:1"),
        Some(IpAddress::V6(0x2001, 0xdb8, 0, 0, 0, 0, 0, 1))
    );
    assert_eq!(
        parse_ip(b"fe80:0:0:0:0:0:0:1"),
        Some(IpAddress::V6(0xfe80, 0, 0, 0, 0, 0, 0, 1))
    );
}

#[test]
fn test_parse_v6_compressed() {
    assert_eq!(parse_ip(b"::"), Some(IpAddress::V6(0, 0, 0, 0, 0, 0, 0, 0)));
    assert_eq!(parse_ip(b"::1"), Some(IpAddress::V6(0, 0, 0, 0, 0, 0, 0, 1)));
    assert_eq!(parse_ip(b"1::"), Some(IpAddress::V6(1, 0, 0, 0, 0, 0, 0, 0)));
    assert_eq!(parse_ip(b"fe80::1"), Some(IpAddress::V6(0xfe80, 0, 0, 0, 0, 0, 0, 1)));
    assert_eq!(
        parse_ip(b"2001:db8::8:800:200c:417a"),
        Some(IpAddress::V6(0x2001, 0xdb8, 0, 0, 0x8, 0x800, 0x200c, 0x417a))
    );
    assert_eq!(
        parse_ip(b"1:2:3:4:5:6:7::"),
        Some(IpAddress::V6(1, 2, 3, 4, 5, 6, 7, 0))
    );
    assert_eq!(
        parse_ip(b"::1:2:3:4:5:6:7"),
        Some(IpAddress::V6(0, 1, 2, 3, 4, 5, 6, 7))
    );
}

#[test]
fn test_parse_v6_invalid() {
    assert_eq!(parse_ip(b"1:2:3:4:5:6:7"), None);
    assert_eq!(parse_ip(b"1:2:3:4:5:6:7:8:9"), None);
    assert_eq!(parse_ip(b"12345:0:0:0:0:0:0:0"), None);
    assert_eq!(parse_ip(b"g:0:0:0:0:0:0:0"), None);
    assert_eq!(parse_ip(b"1:2:3:4:5:6:7:"), None);
    assert_eq!(parse_ip(b":"), None);
    assert_eq!(parse_ip(b":::"), None);
    assert_eq!(parse_ip(b"1:::2"), None);
    assert_eq!(parse_ip(b"::1::2"), None);
    assert_eq!(parse_ip(b":1:2:3:4:5:6:7"), None);
    assert_eq!(parse_ip(b"1:2:3:4:5:6:7:8::"), None);
    assert_eq!(parse_ip(b"::1:2:3:4:5:6:7:8"), None);
}

#[test]
fn test_round_trip_v4() {
    let cases = [
        IpAddress::V4(10, 0, 0, 1),
        IpAddress::V4(192, 168, 1, 1),
        IpAddress::V4(0, 0, 0, 0),
        IpAddress::V4(255, 255, 255, 255),
    ];
    for ip in cases {
        let text = format_ip(ip);
        assert_eq!(parse_ip(&text), Some(ip));
    }
}

#[test]
fn test_round_trip_v6() {
    let cases = [
        IpAddress::V6(0x2001, 0xdb8, 0, 0, 0, 0, 0, 1),
        IpAddress::V6(0, 0, 0, 0, 0, 0, 0, 0),
        IpAddress::V6(0xffff, 0xffff, 0xffff, 0xffff, 0xffff, 0xffff, 0xffff, 0xffff),
        IpAddress::V6(0xfe80, 0, 0, 0, 0x1234, 0x5678, 0x9abc, 0xdef0),
    ];
    for ip in cases {
        let text = format_ip(ip);
        assert_eq!(parse_ip(&text), Some(ip));
    }
}

#[test]
fn test_round_trip_through_text() {
    // A valid spelling parses; respelling the parsed value and parsing
    // again gives the same address.
    let texts: [&[u8]; 5] =
        [b"10.0.0.7", b"2001:DB8:0:0:0:0:0:1", b"0:0:0:0:0:0:0:0", b"fe80::1", b"::"];
    for text in texts {
        let ip = parse_ip(text).unwrap();
        let again = format_ip(ip);
        assert_eq!(parse_ip(&again), Some(ip));
    }
}
