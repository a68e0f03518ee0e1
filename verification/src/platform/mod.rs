//! The operations that differ between operating systems, one module each.
pub mod linux;
pub mod macos;
pub mod windows;
