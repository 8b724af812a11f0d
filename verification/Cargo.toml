[package]
name = "dig-updater-broker"
version = "0.1.0"
edition = "2021"
publish = false

[dependencies]
dig-release-resolver = "=0.2.1"
sha2 = "=0.10.9"
serde = { version = "=1.0.229", features = ["derive"] }
serde_json = "=1.0.154"
thiserror = "=2.0.21"
libc = "=0.2.191"
fs4 = "=1.1.0"
ed25519-dalek = "=2.2.0"
windows = { version = "0.61", features = ["Win32_Foundation", "Win32_Security", "Win32_Security_Authorization", "Win32_Storage_FileSystem", "Win32_System_Console", "Win32_System_IO", "Win32_System_Pipes", "Win32_System_SystemServices", "Win32_System_Threading"] }

[dev-dependencies]
tempfile = "=3.27.0"
