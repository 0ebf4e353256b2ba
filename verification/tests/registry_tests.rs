use peerguard::addr::IpAddress;
use peerguard::registry::{Registry, Status};

#[test]
fn test_get_machines_empty() {
    let reg = Registry::new();
    let machines = reg.get_machines();
    assert!(machines.is_empty());
}

#[test]
fn test_get_machines_non_empty() {
    let mut reg = Registry::new();
    let ip_list = vec![IpAddress::V4(192, 168, 1, 1), IpAddress::V4(127, 0, 0, 1)];
    reg.from_list(ip_list);

    let machines = reg.get_machines();
    assert_eq!(machines.len(), 2);
    assert_eq!(machines[0].ip, b"192.168.1.1".to_vec());
    assert_eq!(machines[1].ip, b"127.0.0.1".to_vec());
}

#[test]
fn test_change_machine_state() {
    let mut reg = Registry::new();
    let ip_list = vec![IpAddress::V4(192, 168, 1, 1)];
    reg.from_list(ip_list);

    reg.change_machine_state(b"192.168.1.1", Status::Isolated);

    let machines = reg.get_machines();
    assert_eq!(machines[0].status, Status::Isolated);
}

#[test]
fn test_change_machine_state_non_existent_ip() {
    let mut reg = Registry::new();
    let ip_list = vec![IpAddress::V4(192, 168, 1, 1)];
    reg.from_list(ip_list);

    reg.change_machine_state(b"10.0.0.1", Status::Isolated);

    let machines = reg.get_machines();
    assert_eq!(machines[0].status, Status::Connected);
}

#[test]
fn test_from_list() {
    let mut reg = Registry::new();
    let ip_list = vec![
        IpAddress::V4(192, 168, 1, 1),
        IpAddress::V4(127, 0, 0, 1),
        IpAddress::V4(8, 8, 8, 8),
    ];
    reg.from_list(ip_list);

    let machines = reg.get_machines();
    assert_eq!(machines.len(), 3);
    assert_eq!(machines[0].ip, b"192.168.1.1".to_vec());
    assert_eq!(machines[1].ip, b"127.0.0.1".to_vec());
    assert_eq!(machines[2].ip, b"8.8.8.8".to_vec());
}

#[test]
fn test_from_list_empty_ip_list() {
    let mut reg = Registry::new();
    let ip_list: Vec<IpAddress> = vec![];
    reg.from_list(ip_list);

    let machines = reg.get_machines();
    assert!(machines.is_empty());
}

#[test]
fn test_from_list_ids_names_placeholders() {
    let mut reg = Registry::new();
    reg.from_list(vec![IpAddress::V4(10, 0, 0, 1), IpAddress::V4(10, 0, 0, 2)]);

    let machines = reg.get_machines();
    assert_eq!(machines[0].id, 1);
    assert_eq!(machines[1].id, 2);
    assert_eq!(machines[0].name, b"1".to_vec());
    assert_eq!(machines[1].name, b"2".to_vec());
    assert_eq!(machines[0].mac, b"AA:BB:CC:DD:EE:FF".to_vec());
    assert_eq!(machines[0].last_update, b"N/A".to_vec());
    assert_eq!(machines[0].status, Status::Connected);
    assert_eq!(machines[1].status, Status::Connected);
}

#[test]
fn test_from_list_discards_prior_state() {
    let mut reg = Registry::new();
    reg.from_list(vec![IpAddress::V4(10, 0, 0, 1)]);
    reg.change_machine_state(b"10.0.0.1", Status::Isolated);

    reg.from_list(vec![IpAddress::V4(10, 0, 0, 1), IpAddress::V4(10, 0, 0, 2)]);

    let machines = reg.get_machines();
    assert_eq!(machines.len(), 2);
    assert_eq!(machines[0].status, Status::Connected);
    assert_eq!(machines[1].status, Status::Connected);
}

#[test]
fn test_change_machine_state_first_match_only() {
    let mut reg = Registry::new();
    reg.from_list(vec![
        IpAddress::V4(10, 0, 0, 1),
        IpAddress::V4(10, 0, 0, 1),
        IpAddress::V4(10, 0, 0, 2),
    ]);

    reg.change_machine_state(b"10.0.0.1", Status::Isolated);

    let machines = reg.get_machines();
    assert_eq!(machines[0].status, Status::Isolated);
    assert_eq!(machines[1].status, Status::Connected);
    assert_eq!(machines[2].status, Status::Connected);
}

#[test]
fn test_change_machine_state_idempotent() {
    let mut reg = Registry::new();
    reg.from_list(vec![IpAddress::V4(10, 0, 0, 1), IpAddress::V4(10, 0, 0, 2)]);

    reg.change_machine_state(b"10.0.0.2", Status::Isolated);
    let once = reg.get_machines();
    reg.change_machine_state(b"10.0.0.2", Status::Isolated);
    reg.change_machine_state(b"10.0.0.2", Status::Isolated);
    let many = reg.get_machines();

    assert_eq!(once.len(), many.len());
    for i in 0..once.len() {
        assert_eq!(once[i].ip, many[i].ip);
        assert_eq!(once[i].status, many[i].status);
    }
}
