use peerguard::addr::IpAddress;
use peerguard::bytes::{bytes_eq, copy_bytes};
use peerguard::firewall::{lock_rules, unlock_rules, Chain, Family, RuleOp};
use peerguard::listener::decode_datagram;
use peerguard::monitor::{event_qualifies, monitor_step, FsEvent, MonitorAction, WatchOutcome};
use peerguard::notifier::{broadcast_targets, NOTIFY_PORT};
use peerguard::registry::Registry;
use peerguard::seed::parse_ip_lines;

#[test]
fn test_bytes_helpers() {
    let v = b"abc".to_vec();
    assert_eq!(copy_bytes(&v), v);
    assert!(bytes_eq(b"abc", b"abc"));
    assert!(!bytes_eq(b"abc", b"abd"));
    assert!(!bytes_eq(b"abc", b"ab"));
    assert!(bytes_eq(b"", b""));
}

#[test]
fn test_decode_datagram_valid() {
    assert_eq!(decode_datagram(b"10.0.0.2"), Some(IpAddress::V4(10, 0, 0, 2)));
    assert_eq!(decode_datagram(b"  10.0.0.2\n"), Some(IpAddress::V4(10, 0, 0, 2)));
    assert_eq!(decode_datagram(b"\t2001:db8:0:0:0:0:0:1\r\n"),
        Some(IpAddress::V6(0x2001, 0xdb8, 0, 0, 0, 0, 0, 1)));
}

#[test]
fn test_decode_datagram_invalid() {
    assert_eq!(decode_datagram(b"not-an-ip"), None);
    assert_eq!(decode_datagram(b""), None);
    assert_eq!(decode_datagram(b"   \n"), None);
}

#[test]
fn test_decode_datagram_oversized() {
    // An oversized payload is truncated to the receive buffer and the
    // truncated text no longer spells an address.
    let mut big = Vec::new();
    for _ in 0..200 {
        big.push(b'1');
    }
    assert_eq!(decode_datagram(&big), None);

    // Even one that starts with a valid literal fails once the junk after
    // it survives truncation.
    let mut tail = b"10.0.0.1".to_vec();
    for _ in 0..200 {
        tail.push(b'x');
    }
    assert_eq!(decode_datagram(&tail), None);
}

#[test]
fn test_broadcast_targets_excludes_self() {
    let mut reg = Registry::new();
    reg.from_list(vec![
        IpAddress::V4(10, 0, 0, 1),
        IpAddress::V4(10, 0, 0, 2),
        IpAddress::V4(10, 0, 0, 3),
    ]);
    let snapshot = reg.get_machines();
    let targets = broadcast_targets(&snapshot, IpAddress::V4(10, 0, 0, 2));
    assert_eq!(targets.len(), 2);
    assert_eq!(targets[0], b"10.0.0.1".to_vec());
    assert_eq!(targets[1], b"10.0.0.3".to_vec());
}

#[test]
fn test_broadcast_targets_self_absent() {
    let mut reg = Registry::new();
    reg.from_list(vec![IpAddress::V4(10, 0, 0, 1), IpAddress::V4(10, 0, 0, 2)]);
    let snapshot = reg.get_machines();
    // A sender that is not in the registry notifies every entry.
    let targets = broadcast_targets(&snapshot, IpAddress::V4(10, 0, 0, 9));
    assert_eq!(targets.len(), 2);
    assert_eq!(targets[0], b"10.0.0.1".to_vec());
    assert_eq!(targets[1], b"10.0.0.2".to_vec());
}

#[test]
fn test_notify_port() {
    assert_eq!(NOTIFY_PORT, 21335);
}

#[test]
fn test_lock_rules() {
    let rules = lock_rules(IpAddress::V4(192, 168, 1, 100));
    assert_eq!(rules.len(), 2);
    assert_eq!(rules[0].op, RuleOp::Add);
    assert_eq!(rules[0].chain, Chain::Input);
    assert_eq!(rules[0].family, Family::V4);
    assert_eq!(rules[0].addr_text, b"192.168.1.100".to_vec());
    assert_eq!(rules[1].op, RuleOp::Add);
    assert_eq!(rules[1].chain, Chain::Output);
    assert_eq!(rules[1].family, Family::V4);
    assert_eq!(rules[1].addr_text, b"192.168.1.100".to_vec());
}

#[test]
fn test_unlock_rules_v6() {
    let rules = unlock_rules(IpAddress::V6(0x2001, 0xdb8, 0, 0, 0, 0, 0, 1));
    assert_eq!(rules.len(), 2);
    assert_eq!(rules[0].op, RuleOp::Delete);
    assert_eq!(rules[0].chain, Chain::Input);
    assert_eq!(rules[0].family, Family::V6);
    assert_eq!(rules[0].addr_text, b"2001:db8:0:0:0:0:0:1".to_vec());
    assert_eq!(rules[1].op, RuleOp::Delete);
    assert_eq!(rules[1].chain, Chain::Output);
}

#[test]
fn test_monitor_decisions() {
    assert!(event_qualifies(FsEvent::ContentAccess));
    assert!(event_qualifies(FsEvent::Open));
    assert!(event_qualifies(FsEvent::AttributeChange));
    assert!(!event_qualifies(FsEvent::Other));
    assert_eq!(monitor_step(WatchOutcome::Events), MonitorAction::InvokeHandler);
    assert_eq!(monitor_step(WatchOutcome::ReadError), MonitorAction::RetryAfterDelay);
}

#[test]
fn test_parse_ip_lines() {
    let lines = vec![
        b"192.168.1.1".to_vec(),
        b"127.0.0.1".to_vec(),
        b"not an address".to_vec(),
        b"8.8.8.8".to_vec(),
    ];
    let ips = parse_ip_lines(&lines);
    assert_eq!(ips.len(), 3);
    assert_eq!(ips[0], IpAddress::V4(192, 168, 1, 1));
    assert_eq!(ips[1], IpAddress::V4(127, 0, 0, 1));
    assert_eq!(ips[2], IpAddress::V4(8, 8, 8, 8));
}

#[test]
fn test_parse_ip_lines_empty() {
    let lines: Vec<Vec<u8>> = vec![];
    let ips = parse_ip_lines(&lines);
    assert!(ips.is_empty());
}
