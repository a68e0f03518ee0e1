use packet_loss_monitor::platform::{linux, macos, windows};

#[test]
fn linux_interfaces_from_dev_table() {
    let dev = "Inter-|   Receive                                                |  Transmit\n \
face |bytes    packets errs drop fifo frame compressed multicast|bytes    packets errs drop fifo colls carrier compressed\n    \
lo: 1234 10 0 0 0 0 0 0 1234 10 0 0 0 0 0 0\n  \
eth0: 98765 100 0 0 0 0 0 0 4321 50 0 0 0 0 0 0\n\
wlan0:0 0 0 0 0 0 0 0 0 0 0 0 0 0 0 0\n";
    assert_eq!(
        linux::PlatformImpl::new().get_network_interfaces(dev),
        vec!["eth0".to_string(), "wlan0".to_string()]
    );
}

#[test]
fn linux_interfaces_skip_empty_names() {
    assert_eq!(
        linux::PlatformImpl::new().get_network_interfaces(":abc\n \t \nlo:\n"),
        Vec::<String>::new()
    );
}

#[test]
fn macos_interfaces_from_ifconfig() {
    let out = "lo0: flags=8049<UP,LOOPBACK,RUNNING,MULTICAST> mtu 16384\n\tinet 127.0.0.1 netmask 0xff000000\nen0: flags=8863<UP,BROADCAST,RUNNING> mtu 1500\n\tether a1:b2:c3:d4:e5:f6\n";
    assert_eq!(
        macos::PlatformImpl::new().get_network_interfaces(out.as_bytes()),
        vec!["en0".to_string()]
    );
}

#[test]
fn macos_interfaces_from_unindented_lines_only() {
    let out = "bridge0: flags=8863 mtu 1500\n  en9: indented\n:::\nutun0:\nno colon here\nen1 : flags=0\n";
    assert_eq!(
        macos::PlatformImpl::new().parse_ifconfig_output(out),
        vec!["bridge0".to_string(), "utun0".to_string(), "en1".to_string()]
    );
}

#[test]
fn windows_adapters_from_ipconfig() {
    let out = "Windows IP Configuration\r\n\r\nEthernet adapter Ethernet:\r\n\r\nWireless LAN adapter Wi-Fi:\r\n";
    assert_eq!(
        windows::PlatformImpl::new().get_network_interfaces(out.as_bytes()),
        vec!["Ethernet".to_string(), "Wi-Fi".to_string()]
    );
}

#[test]
fn windows_adapter_names_between_heading_and_colon() {
    let out = "Ethernet adapter Ethernet 2:\r\n   Description . . . : Intel\r\nEthernet adapter: X\r\n  Wireless LAN adapter  Local Area Connection* 1 :\r\nEthernet adapter no colon\r\n";
    assert_eq!(
        windows::PlatformImpl::new().parse_ipconfig_output(out),
        vec!["Ethernet 2".to_string(), "Local Area Connection* 1".to_string()]
    );
}
