use packet_loss_monitor::platform::{linux, macos, windows};

#[test]
fn law_linux_summary_concrete() {
    let p = linux::PlatformImpl::new();
    for (tx, rx, loss) in [(10u32, 10u32, 0u32), (6, 5, 16), (4, 0, 100)] {
        let text = format!("PING x\n{} packets transmitted, {} received, {}% packet loss, time 1ms", tx, rx, loss);
        assert_eq!(p.parse_ping_output(text.as_bytes()), Some(loss.to_string()));
    }
}

#[test]
fn law_macos_summary_concrete() {
    let p = macos::PlatformImpl::new();
    let text = "PING x: 56 data bytes\n\n--- x ping statistics ---\n5 packets transmitted, 4 packets received, 20.0% packet loss\n";
    assert_eq!(p.parse_ping_output(text.as_bytes()), Some("20.0".to_string()));
}

#[test]
fn law_windows_lost_percent_concrete() {
    let p = windows::PlatformImpl::new();
    let text = "Ping statistics for 8.8.8.8:\r\n    Packets: Sent = 4, Received = 3, Lost = 1 (25%)\r\n";
    assert_eq!(p.parse_ping_output(text.as_bytes()), Some("25".to_string()));
}

#[test]
fn law_interfaces_never_loopback_concrete() {
    let names = linux::PlatformImpl::new().get_network_interfaces("lo: 1\n lo :2\neth0: 3\n");
    assert_eq!(names, vec!["eth0".to_string()]);
    let names = macos::PlatformImpl::new().get_network_interfaces(b"lo0:\nlo0::\nen1:\n");
    assert_eq!(names, vec!["en1".to_string()]);
}

#[test]
fn law_gateway_field_round_trip_concrete() {
    let p = linux::PlatformImpl::new();
    for x in [0u32, 1, 0x0101A8C0, 0xFFFFFFFF, 0x0A000001, 0x12AB34CD] {
        let table = format!("Iface Destination Gateway\neth0 00000000 {:08X} 0003\n", x);
        let o = u32::from_be(x).to_be_bytes();
        assert_eq!(
            p.get_default_gateway(&table),
            Ok(format!("{}.{}.{}.{}", o[0], o[1], o[2], o[3]))
        );
    }
}

#[test]
fn law_linux_summary_fraction_concrete() {
    let p = linux::PlatformImpl::new();
    let text = "--- x ping statistics ---\n3 packets transmitted, 2 received, 33.3333% packet loss, time 2003ms\n";
    assert_eq!(p.parse_ping_output(text.as_bytes()), Some("33.3333".to_string()));
}

#[test]
fn law_no_percent_no_figure_concrete() {
    let text = b"PING x (1.2.3.4) 56(84) bytes of data.\nRequest timed out.\nLost = 4 (100)";
    assert_eq!(linux::PlatformImpl::new().parse_ping_output(text), None);
    assert_eq!(macos::PlatformImpl::new().parse_ping_output(text), None);
    assert_eq!(windows::PlatformImpl::new().parse_ping_output(text), None);
}

#[test]
fn law_applescript_escape_reads_back_concrete() {
    let cmd = macos::PlatformImpl::new().notification_command("\"", "\\\"");
    assert_eq!(cmd[2], r#"display notification "\\\"" with title "\"""#);
}

#[test]
fn law_text_and_bytes_agree_concrete() {
    let m = macos::PlatformImpl::new();
    let out = "   route to: default\n    gateway: 192.168.1.1\n";
    assert_eq!(m.parse_route_output(out), Ok("192.168.1.1".to_string()));
    assert_eq!(m.get_default_gateway(true, out.as_bytes()), m.parse_route_output(out));
    let w = windows::PlatformImpl::new();
    let out = "          0.0.0.0          0.0.0.0      192.168.0.1    192.168.0.10     25\r\n";
    assert_eq!(w.parse_route_output(out), Ok("192.168.0.1".to_string()));
    assert_eq!(w.get_default_gateway(true, out.as_bytes()), w.parse_route_output(out));
}

#[test]
fn law_windows_percent_loss_concrete() {
    let p = windows::PlatformImpl::new();
    let text = "Ping statistics for 8.8.8.8:\r\n    Packets: Sent = 4, Received = 3, Lost = 1 (25% loss),\r\n";
    assert_eq!(p.parse_ping_output(text.as_bytes()), Some("25".to_string()));
}
