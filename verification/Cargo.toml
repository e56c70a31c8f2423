[package]
name = "moss"
version = "0.2.0"
edition = "2021"
publish = false

[dependencies]
crossterm = "=0.28.1"
dokan = "0.3.1"
dokan-sys = "0.3.1"
fuser = { version = "=0.14.0", default-features = false }
libc = "0.2"
ratatui = "=0.29.0"
serde = { version = "1", features = ["derive"] }
serde_json = "1"
widestring = "0.4"
winapi = { version = "0.3", features = ["ntdef", "ntstatus", "winnt"] }
