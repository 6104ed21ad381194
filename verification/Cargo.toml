[package]
name = "pcore-blake3"
version = "0.4.0"
edition = "2021"
publish = false

[dependencies]
blake3 = { version = "1", features = ["rayon"] }
rayon = "1"
libc = "0.2"
windows-sys = { version = "0.59", features = ["Win32_Foundation", "Win32_System_SystemInformation", "Win32_System_Threading"] }
