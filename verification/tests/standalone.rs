use packet_loss_monitor::standalone::{
    count_lost, get_interface_index, parse_args, InterfaceEntry, PingReply, TargetAddr,
};

#[test]
fn standalone_config_from_values() {
    let config = parse_args("eth0", Some(TargetAddr::V4(0x08080808)), "1", "10").unwrap();
    assert_eq!(config.interface, "eth0");
    assert_eq!(config.target, TargetAddr::V4(0x08080808));
    assert_eq!(config.interval, 1);
    assert_eq!(config.count, 10);
}

#[test]
fn standalone_config_errors_in_order() {
    assert_eq!(
        parse_args("eth0", None, "x", "y").err(),
        Some("Invalid target IP address".to_string())
    );
    assert_eq!(
        parse_args("eth0", Some(TargetAddr::V6(1)), "x", "y").err(),
        Some("Invalid interval".to_string())
    );
    assert_eq!(
        parse_args("eth0", Some(TargetAddr::V6(1)), "5", "-1").err(),
        Some("Invalid packet count".to_string())
    );
    assert_eq!(
        parse_args("eth0", Some(TargetAddr::V6(1)), "18446744073709551616", "1").err(),
        Some("Invalid interval".to_string())
    );
    assert_eq!(parse_args("eth0", Some(TargetAddr::V6(1)), "+5", "07").unwrap().count, 7);
}

#[test]
fn standalone_interface_index_first_match() {
    let entries = vec![
        InterfaceEntry { name: "lo".to_string(), index: Some(1) },
        InterfaceEntry { name: "eth0".to_string(), index: Some(2) },
        InterfaceEntry { name: "eth0".to_string(), index: Some(7) },
        InterfaceEntry { name: "tun0".to_string(), index: None },
    ];
    assert_eq!(get_interface_index(Some(entries), "eth0"), Some(2));
}

#[test]
fn standalone_interface_index_absent() {
    let entries = vec![
        InterfaceEntry { name: "lo".to_string(), index: Some(1) },
        InterfaceEntry { name: "tun0".to_string(), index: None },
    ];
    assert_eq!(get_interface_index(Some(entries), "nonexistent_interface"), None);
    let entries = vec![InterfaceEntry { name: "tun0".to_string(), index: None }];
    assert_eq!(get_interface_index(Some(entries), "tun0"), None);
    assert_eq!(get_interface_index(None, "lo"), None);
}

#[test]
fn standalone_lost_packets_counted() {
    let replies = vec![
        PingReply { timeout: false, received: 1 },
        PingReply { timeout: true, received: 1 },
        PingReply { timeout: false, received: 0 },
        PingReply { timeout: false, received: 3 },
    ];
    assert_eq!(count_lost(&replies), 2);
    assert_eq!(count_lost(&Vec::new()), 0);
}
