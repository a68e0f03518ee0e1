use packet_loss_monitor::platform::{linux, macos, windows};

fn linux_loss(text: &str) -> Option<String> {
    linux::PlatformImpl::new().parse_ping_output(text.as_bytes())
}

fn macos_loss(text: &str) -> Option<String> {
    macos::PlatformImpl::new().parse_ping_output(text.as_bytes())
}

fn windows_loss(text: &str) -> Option<String> {
    windows::PlatformImpl::new().parse_ping_output(text.as_bytes())
}

#[test]
fn linux_summary_line_gives_loss() {
    assert_eq!(
        linux_loss("6 packets transmitted, 5 received, 16% packet loss, time 5006ms"),
        Some("16".to_string())
    );
}

#[test]
fn linux_full_output_gives_loss() {
    let out = "PING 8.8.8.8 (8.8.8.8) 56(84) bytes of data.\n\
64 bytes from 8.8.8.8: icmp_seq=1 ttl=117 time=10.5 ms\n\
\n\
--- 8.8.8.8 ping statistics ---\n\
10 packets transmitted, 9 received, 10% packet loss, time 9012ms\n\
rtt min/avg/max/mdev = 10.1/10.5/11.0/0.3 ms\n";
    assert_eq!(linux_loss(out), Some("10".to_string()));
}

#[test]
fn linux_without_summary_gives_nothing() {
    assert_eq!(linux_loss("ping: unknown host"), None);
    assert_eq!(linux_loss(""), None);
    assert_eq!(linux_loss("16%packetloss"), None);
}

#[test]
fn linux_spaces_around_packet() {
    assert_eq!(linux_loss("100%packet \t loss"), Some("100".to_string()));
    assert_eq!(linux_loss("7%   packet loss"), Some("7".to_string()));
}

#[test]
fn linux_fractional_loss() {
    assert_eq!(linux_loss("16.6667% packet loss"), Some("16.6667".to_string()));
    assert_eq!(
        linux_loss("3 packets transmitted, 2 received, 33.3333% packet loss, time 2003ms"),
        Some("33.3333".to_string())
    );
    assert_eq!(linux_loss("12.% packet loss"), Some("12.".to_string()));
    assert_eq!(linux_loss("1.2.3% packet loss"), Some("2.3".to_string()));
}

#[test]
fn linux_leftmost_match_wins() {
    assert_eq!(linux_loss("3% packet loss 4% packet loss"), Some("3".to_string()));
}

#[test]
fn linux_unicode_digits_belong_to_the_figure() {
    // U+0663 ARABIC-INDIC DIGIT THREE is a decimal digit.
    assert_eq!(linux_loss("\u{663}5% packet loss"), Some("\u{663}5".to_string()));
}

#[test]
fn linux_invalid_utf8_is_replaced() {
    let mut bytes = vec![0xffu8, 0xfe];
    bytes.extend_from_slice(b" 25% packet loss");
    assert_eq!(
        linux::PlatformImpl::new().parse_ping_output(&bytes),
        Some("25".to_string())
    );
}

#[test]
fn macos_fractional_loss() {
    assert_eq!(
        macos_loss("6 packets transmitted, 5 received, 16.6667% packet loss, time 5007ms"),
        Some("16.6667".to_string())
    );
    assert_eq!(
        macos_loss("5 packets transmitted, 5 packets received, 0.0% packet loss"),
        Some("0.0".to_string())
    );
}

#[test]
fn macos_integer_and_spaced_percent() {
    assert_eq!(macos_loss("20 % packet loss"), Some("20".to_string()));
    assert_eq!(macos_loss("20. % packet loss"), Some("20.".to_string()));
    assert_eq!(macos_loss("no summary"), None);
}

#[test]
fn windows_lost_count_with_percentage() {
    assert_eq!(windows_loss("Lost = 1 (25%), Loss = 25%"), Some("25".to_string()));
}

#[test]
fn windows_loss_equals_form() {
    assert_eq!(windows_loss("Loss = 40%"), Some("40".to_string()));
}

#[test]
fn windows_percent_loss_form() {
    assert_eq!(
        windows_loss("    Packets: Sent = 4, Received = 4, Lost = 0 (0% loss),"),
        Some("0".to_string())
    );
    assert_eq!(
        windows_loss("    Packets: Sent = 4, Received = 3, Lost = 1 (25% loss),"),
        Some("25".to_string())
    );
}

#[test]
fn text_without_percent_gives_no_figure() {
    for text in ["", "Request timed out.", "10 packets transmitted, 0 received", "Lost = 4 (100)"] {
        assert_eq!(linux_loss(text), None);
        assert_eq!(macos_loss(text), None);
        assert_eq!(windows_loss(text), None);
    }
}

#[test]
fn windows_without_summary_gives_nothing() {
    assert_eq!(windows_loss("Request timed out."), None);
}

#[test]
fn ping_arguments_per_platform() {
    assert_eq!(
        linux::PlatformImpl::new().ping_arguments("8.8.8.8", 10),
        vec!["-c".to_string(), "10".to_string(), "8.8.8.8".to_string()]
    );
    assert_eq!(
        macos::PlatformImpl::new().ping_arguments("1.1.1.1", 0),
        vec!["-c".to_string(), "0".to_string(), "1.1.1.1".to_string()]
    );
    assert_eq!(
        windows::PlatformImpl::new().ping_arguments("host", 123456),
        vec!["-n".to_string(), "123456".to_string(), "host".to_string()]
    );
}

#[test]
fn notification_commands_per_platform() {
    assert_eq!(
        linux::PlatformImpl::new().notification_command("Packet Loss Alert", "Loss: 10.00%"),
        vec!["notify-send", "-u", "normal", "-t", "5000", "Packet Loss Alert", "Loss: 10.00%"]
    );
    assert_eq!(
        macos::PlatformImpl::new().notification_command("T", "M"),
        vec![
            "osascript".to_string(),
            "-e".to_string(),
            format!(r#"display notification "{}" with title "{}""#, "M", "T"),
        ]
    );
    assert_eq!(
        macos::PlatformImpl::new().notification_command("a\\b", r#"say "hi""#),
        vec![
            "osascript".to_string(),
            "-e".to_string(),
            r#"display notification "say \"hi\"" with title "a\\b""#.to_string(),
        ]
    );
    let script = format!(
        r#"Add-Type -AssemblyName System.Windows.Forms; 
            Add-Type -AssemblyName System.Drawing; 
            $notification = [System.Windows.Forms.ToastNotification]::new(); 
            $notification.Title = "{}"; 
            $notification.Content = "{}"; 
            $notification.Show()"#,
        "T", "M"
    );
    assert_eq!(
        windows::PlatformImpl::new().notification_command("T", "M"),
        vec!["powershell".to_string(), "-Command".to_string(), script]
    );
}
