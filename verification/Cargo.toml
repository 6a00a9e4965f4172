[package]
name = "globazog"
version = "0.1.0"
edition = "2021"
publish = false

[dependencies]
crossbeam-queue = "=0.3.14"
thiserror = "=2.0.21"
rustix = { version = "=1.1.6", features = ["fs"] }
windows-sys = { version = "=0.61.2", features = ["Win32_Foundation", "Win32_Storage_FileSystem"] }
