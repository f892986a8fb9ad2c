[package]
name = "mcast_probe"
version = "0.1.0"
edition = "2021"
publish = false

[dependencies]
anyhow = "1"
clap = { version = "4", features = ["derive"] }
libc = "0.2"
socket2 = { version = "0.5", features = ["all"] }
windows-sys = { version = "*", features = ["Win32_Foundation", "Win32_NetworkManagement_IpHelper"] }
