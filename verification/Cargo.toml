[package]
name = "rsa_keygen"
version = "0.1.0"
edition = "2021"
publish = false

[dependencies]
bnum = "=0.14.4"
rand = "=0.9.5"
libc = "=0.2.191"
windows = { version = "=0.58.0", features = ["Win32_Foundation", "Win32_Networking_WinSock"] }
winsafe = { version = "=0.0.29", features = ["kernel"] }
