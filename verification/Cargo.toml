[package]
name = "pm-vault"
version = "0.1.0"
edition = "2021"
publish = false

[dependencies]
libc = "0.2"
minicbor = { version = "*", features = ["alloc", "std"] }
rusqlite = { version = "*", features = ["bundled"] }
windows-sys = { version = "0.59", features = ["Win32_Foundation", "Win32_Security", "Win32_Storage_FileSystem", "Win32_System_IO"] }
zeroize = "1"
