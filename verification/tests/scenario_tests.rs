use peerguard::addr::IpAddress;
use peerguard::agent::{on_local_alert, on_peer_alert};
use peerguard::firewall::{Chain, Family, RuleOp};
use peerguard::registry::{Registry, Status};

fn seeded_registry() -> Registry {
    let mut reg = Registry::new();
    reg.from_list(vec![
        IpAddress::V4(10, 0, 0, 1),
        IpAddress::V4(10, 0, 0, 2),
        IpAddress::V4(10, 0, 0, 3),
    ]);
    reg
}

#[test]
fn test_scenario_seed_and_snapshot() {
    let reg = seeded_registry();
    let machines = reg.get_machines();
    assert_eq!(machines.len(), 3);
    for (i, m) in machines.iter().enumerate() {
        assert_eq!(m.id, (i + 1) as u64);
        assert_eq!(m.status, Status::Connected);
    }
    assert_eq!(machines[0].ip, b"10.0.0.1".to_vec());
    assert_eq!(machines[1].ip, b"10.0.0.2".to_vec());
    assert_eq!(machines[2].ip, b"10.0.0.3".to_vec());
}

#[test]
fn test_scenario_set_status() {
    let mut reg = seeded_registry();
    reg.change_machine_state(b"10.0.0.2", Status::Isolated);
    let machines = reg.get_machines();
    assert_eq!(machines[0].status, Status::Connected);
    assert_eq!(machines[1].status, Status::Isolated);
    assert_eq!(machines[2].status, Status::Connected);
    assert_eq!(machines[1].id, 2);
    assert_eq!(machines[1].ip, b"10.0.0.2".to_vec());
}

#[test]
fn test_scenario_broadcast() {
    let mut reg = seeded_registry();
    let plan = on_local_alert(&mut reg, IpAddress::V4(10, 0, 0, 1));
    // Exactly two datagrams, to the two peers, each carrying the sender's
    // own address as text.
    assert_eq!(plan.targets.len(), 2);
    assert_eq!(plan.targets[0], b"10.0.0.2".to_vec());
    assert_eq!(plan.targets[1], b"10.0.0.3".to_vec());
    assert_eq!(plan.payload, b"10.0.0.1".to_vec());
    // The local alert also marked the sender's own entry isolated.
    let machines = reg.get_machines();
    assert_eq!(machines[0].status, Status::Isolated);
    assert_eq!(machines[1].status, Status::Connected);
    assert_eq!(machines[2].status, Status::Connected);
}

#[test]
fn test_scenario_peer_alert() {
    let mut reg = seeded_registry();
    let rules = on_peer_alert(&mut reg, IpAddress::V4(10, 0, 0, 2));
    let machines = reg.get_machines();
    assert_eq!(machines[1].status, Status::Isolated);
    assert_eq!(machines[0].status, Status::Connected);
    assert_eq!(machines[2].status, Status::Connected);
    assert_eq!(rules.len(), 2);
    assert_eq!(rules[0].op, RuleOp::Add);
    assert_eq!(rules[0].chain, Chain::Input);
    assert_eq!(rules[0].family, Family::V4);
    assert_eq!(rules[0].addr_text, b"10.0.0.2".to_vec());
    assert_eq!(rules[1].chain, Chain::Output);
}
