use packet_loss_monitor::platform::{linux, macos, windows};

const ROUTE_TABLE: &str = "Iface\tDestination\tGateway \tFlags\tRefCnt\tUse\tMetric\tMask\t\tMTU\tWindow\tIRTT\n\
eth0\t00000000\t0101A8C0\t0003\t0\t0\t100\t00000000\t0\t0\t0\n\
eth0\t0001A8C0\t00000000\t0001\t0\t0\t100\t00FFFFFF\t0\t0\t0\n";

fn host_order_dotted(word: u32) -> String {
    let o = u32::from_be(word).to_be_bytes();
    format!("{}.{}.{}.{}", o[0], o[1], o[2], o[3])
}

#[test]
fn linux_default_gateway_from_route_table() {
    let p = linux::PlatformImpl::new();
    assert!(p.route_rows_complete(ROUTE_TABLE));
    let expected = host_order_dotted(0x0101A8C0);
    assert_eq!(p.get_default_gateway(ROUTE_TABLE), Ok(expected.clone()));
    if 1u32.to_le_bytes()[0] == 1 {
        assert_eq!(expected, "192.168.1.1");
    }
}

#[test]
fn linux_gateway_with_hex_prefix() {
    let p = linux::PlatformImpl::new();
    let table = "eth1 00000000 0x0A00000A 0003\n";
    assert_eq!(p.get_default_gateway(table), Ok(host_order_dotted(0x0A00000A)));
}

#[test]
fn linux_no_default_route() {
    let p = linux::PlatformImpl::new();
    let table = "Iface Destination Gateway\n\neth0 0001A8C0 00000000 0001\n";
    assert!(p.route_rows_complete(table));
    assert_eq!(
        p.get_default_gateway(table),
        Err("No default gateway found".to_string())
    );
    assert_eq!(p.get_default_gateway(""), Err("No default gateway found".to_string()));
}

#[test]
fn linux_invalid_gateway_hex_is_reported() {
    let p = linux::PlatformImpl::new();
    let table = "eth0 00000000 zz01A8C0 0003\n";
    let expected_error = u32::from_str_radix("zz01A8C0", 16).unwrap_err().to_string();
    assert_eq!(
        p.get_default_gateway(table),
        Err(format!("Invalid gateway hex 'zz01A8C0': {}", expected_error))
    );
    assert_eq!(
        p.get_default_gateway(table),
        Err("Invalid gateway hex 'zz01A8C0': invalid digit found in string".to_string())
    );
}

#[test]
fn linux_overlong_gateway_hex_is_reported() {
    let p = linux::PlatformImpl::new();
    let table = "eth0 00000000 1FFFFFFFF 0003\n";
    assert_eq!(
        p.get_default_gateway(table),
        Err("Invalid gateway hex '1FFFFFFFF': number too large to fit in target type".to_string())
    );
    let table = "eth0 00000000 0x 0003\n";
    assert_eq!(
        p.get_default_gateway(table),
        Err("Invalid gateway hex '': cannot parse integer from empty string".to_string())
    );
}

#[test]
fn linux_short_rows_are_detected() {
    let p = linux::PlatformImpl::new();
    assert!(!p.route_rows_complete("eth0\n"));
    assert!(!p.route_rows_complete("eth0 00000000\n"));
    assert!(p.route_rows_complete("eth0 00000000 0101A8C0\nx\n"));
}

#[test]
fn macos_gateway_from_route_get() {
    let p = macos::PlatformImpl::new();
    let out = "   route to: default\ndestination: default\n       mask: default\n    gateway: 192.168.1.1\n  interface: en0\n";
    assert_eq!(
        p.get_default_gateway(true, out.as_bytes()),
        Ok("192.168.1.1".to_string())
    );
}

#[test]
fn macos_gateway_cut_at_parenthesis() {
    let p = macos::PlatformImpl::new();
    let out = "gateway: 10.0.0.1) link#4\n";
    assert_eq!(p.get_default_gateway(true, out.as_bytes()), Ok("10.0.0.1".to_string()));
    // Only the text from the first `)` on is dropped.
    let out = "gateway: 10.0.0.1 (router)\n";
    assert_eq!(
        p.get_default_gateway(true, out.as_bytes()),
        Ok("10.0.0.1 (router".to_string())
    );
}

#[test]
fn macos_route_failure_and_missing_gateway() {
    let p = macos::PlatformImpl::new();
    assert_eq!(
        p.get_default_gateway(false, b"gateway: 1.2.3.4\n"),
        Err("Route command failed".to_string())
    );
    assert_eq!(
        p.get_default_gateway(true, b"gateway:   \ninterface: en0\n"),
        Err("No default gateway found".to_string())
    );
}

#[test]
fn windows_gateway_from_route_print() {
    let p = windows::PlatformImpl::new();
    let out = "IPv4 Route Table\r\n===========================================================================\r\nActive Routes:\r\nNetwork Destination        Netmask          Gateway       Interface  Metric\r\n          0.0.0.0          0.0.0.0      192.168.1.1    192.168.1.100     25\r\n";
    assert_eq!(
        p.get_default_gateway(true, out.as_bytes()),
        Ok("192.168.1.1".to_string())
    );
}

#[test]
fn windows_on_link_default_route_is_skipped() {
    let p = windows::PlatformImpl::new();
    let out = "0.0.0.0 0.0.0.0 0.0.0.0 10.0.0.5 10\r\n0.0.0.0 0.0.0.0 10.0.0.1 10.0.0.5 20\r\n";
    assert_eq!(p.get_default_gateway(true, out.as_bytes()), Ok("10.0.0.1".to_string()));
    assert_eq!(
        p.get_default_gateway(true, b"0.0.0.0 0.0.0.0\r\n"),
        Err("No default gateway found".to_string())
    );
    assert_eq!(
        p.get_default_gateway(false, b""),
        Err("Route command failed".to_string())
    );
}
