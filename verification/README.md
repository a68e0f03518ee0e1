# packet_loss_monitor

A cross-platform packet loss monitor whose parsing and decision logic is
specified and proved correct.

- `src/` is the library: reading the loss figure out of `ping` output
  (Linux, macOS and Windows formats), the default gateway out of the routing
  table or `route` output, the interface names out of `/proc/net/dev`,
  `ifconfig` or `ipconfig`, the notification commands, the command-line
  decisions of the monitor, and the standalone monitor's configuration and
  loss count. The `str` operations these rely on (`lines`, `trim`,
  `split_whitespace`, unsigned `from_str_radix`) are specified over
  `Seq<char>` in `text.rs` and `number.rs`.
- `app/` is the program around it: command-line parsing with clap, running
  `ping` and `route`, reading system files, notifications, Ctrl-C handling
  and the monitoring loop, whose loss percentages are floats.
- `tests/` runs the library on concrete outputs.

Usage:

    packet_loss_monitor --interface eth0 [--target 8.8.8.8] [--interval 5] [--count 10] [--popup] [--test]
    packet_loss_monitor --list-interfaces
    packet_loss_monitor standalone <INTERFACE> <TARGET> [--interval 1] [--count 10]

The `standalone` form runs the single-interface monitor that pings through
the given interface with its own ICMP socket and prints one line per round.
