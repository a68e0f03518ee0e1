use packet_loss_monitor::monitor::{Args, StartupAction, TargetSource};

#[test]
fn test_args_parse_with_defaults() {
    // Test that Args can be created with default values
    let args = Args {
        interface: "eth0".to_string(),
        interval: 5u64,
        target: "1.1.1.1".to_string(),
        packets: 10usize,
        popup: false,
        test: false,
        list_interfaces: false,
    };

    assert_eq!(args.interface, "eth0");
    assert_eq!(args.interval, 5);
    assert_eq!(args.target, "1.1.1.1");
    assert_eq!(args.packets, 10);
}

#[test]
fn test_args_parse_with_custom_values() {
    // Test that Args can be created with custom values
    let args = Args {
        interface: "wlan0".to_string(),
        interval: 10u64,
        target: "8.8.8.8".to_string(),
        packets: 20usize,
        popup: true,
        test: true,
        list_interfaces: false,
    };

    assert_eq!(args.interface, "wlan0");
    assert_eq!(args.interval, 10);
    assert_eq!(args.target, "8.8.8.8");
    assert_eq!(args.packets, 20);
}

#[test]
fn list_interfaces_flag_wins_over_missing_interface() {
    assert_eq!(Args::startup_action(true, None), StartupAction::ListInterfaces);
    assert_eq!(
        Args::startup_action(true, Some("eth0".to_string())),
        StartupAction::ListInterfaces
    );
}

#[test]
fn missing_interface_is_reported() {
    assert_eq!(Args::startup_action(false, None), StartupAction::MissingInterface);
}

#[test]
fn given_interface_is_monitored() {
    assert_eq!(
        Args::startup_action(false, Some("wlan0".to_string())),
        StartupAction::Monitor("wlan0".to_string())
    );
}

#[test]
fn target_falls_back_to_gateway_then_cloudflare() {
    assert_eq!(Args::fallback_target(Ok("192.168.1.1".to_string())), "192.168.1.1");
    assert_eq!(
        Args::fallback_target(Err("No default gateway found".to_string())),
        "1.1.1.1"
    );
}

#[test]
fn interface_listing_prints_names_and_total() {
    let report = Args::interface_listing(Ok(vec!["eth0".to_string(), "wlan0".to_string()]));
    assert_eq!(
        report.stdout,
        vec![
            "Available network interfaces:".to_string(),
            "  - eth0".to_string(),
            "  - wlan0".to_string(),
            "".to_string(),
            "Total: 2 interfaces".to_string(),
        ]
    );
    assert!(report.stderr.is_empty());
    assert_eq!(report.exit_code, 0);
}

#[test]
fn interface_listing_of_no_interfaces() {
    let report = Args::interface_listing(Ok(vec![]));
    assert_eq!(
        report.stdout,
        vec![
            "Available network interfaces:".to_string(),
            "".to_string(),
            "Total: 0 interfaces".to_string(),
        ]
    );
    assert_eq!(report.exit_code, 0);
}

#[test]
fn interface_listing_failure_exits_with_one() {
    let report = Args::interface_listing(Err("Failed to read /proc/net/dev: denied".to_string()));
    assert!(report.stdout.is_empty());
    assert_eq!(
        report.stderr,
        vec!["Error listing interfaces: Failed to read /proc/net/dev: denied".to_string()]
    );
    assert_eq!(report.exit_code, 1);
}

#[test]
fn test_missing_interface_error() {
    // `packet_loss_monitor --test`: no interface and no `--list-interfaces`.
    let action = Args::startup_action(false, None);
    assert_eq!(action, StartupAction::MissingInterface);
    let report = Args::missing_interface_report();
    assert_ne!(report.exit_code, 0);
    assert_eq!(report.exit_code, 1);
    assert!(report.stdout.is_empty());
    assert_eq!(
        report.stderr,
        vec!["Error: --interface is required (or use --list-interfaces to see available interfaces)"
            .to_string()]
    );
}

#[test]
fn given_target_is_used_else_gateway_is_looked_up() {
    assert_eq!(
        Args::target_source(Some("8.8.8.8".to_string())),
        TargetSource::Given("8.8.8.8".to_string())
    );
    assert_eq!(Args::target_source(None), TargetSource::DefaultGateway);
}
