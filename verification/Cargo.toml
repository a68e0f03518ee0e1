[package]
name = "packet_loss_monitor"
version = "0.8.0"
edition = "2021"
publish = false

[dependencies]
clap = "4"
ctrlc = "3"
if-addrs = "*"
ping = "*"
regex = "1"
