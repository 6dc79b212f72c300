[package]
name = "scrim"
version = "0.1.0"
edition = "2021"
publish = false

[dependencies]
mdns-sd = "=0.13.11"
ort = { version = "=2.0.0-rc.11", default-features = false, features = ["std", "load-dynamic"] }
rust_cast = "=0.19.0"
serde = { version = "=1.0.229", features = ["derive"] }
serde_json = "=1.0.154"
tiny_http = "=0.12.0"
tokio = { version = "=1.54.1", features = ["io-util", "macros", "net", "process", "rt", "rt-multi-thread", "sync", "time"] }
windows = { version = "0.58", features = ["Win32_Foundation", "Win32_Graphics_Gdi", "Win32_System_LibraryLoader", "Win32_UI_WindowsAndMessaging"] }
