//! Verified parsing and decision logic of a cross-platform packet loss
//! monitor: the loss figure in `ping` output, the default gateway, the
//! network interfaces, and the command-line decisions of the monitor.
pub mod ipv4;
pub mod monitor;
pub mod number;
pub mod ping_output;
pub mod platform;
pub mod standalone;
pub mod text;
