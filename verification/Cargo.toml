[package]
name = "tcpcount"
version = "0.1.0"
edition = "2021"
publish = false

[dependencies]
clap = "*"
crossterm = "*"
dns-lookup = "*"
netstat2 = "*"
ratatui = "*"
sysinfo = "*"
