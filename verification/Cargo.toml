[package]
name = "tg_ws_proxy"
version = "1.7.2"
edition = "2021"
publish = false

[dependencies]
aes = "=0.9.4"
arboard = { version = "=3.7.0", default-features = false }
base64 = "=0.23.1"
cipher = "=0.5.2"
clap = { version = "=4.6.7", features = ["derive"] }
ctr = "=0.10.1"
eframe = { version = "=0.37.0", default-features = false, features = ["glow", "default_fonts", "x11"] }
egui = { version = "=0.37.0", default-features = false }
hex = "=0.4.3"
hmac = "=0.13.0"
native-tls = "=0.2.18"
parking_lot = "=0.13.0"
rand = "=0.10.3"
reqwest = { version = "=0.13.5", default-features = false, features = ["native-tls"] }
serde = { version = "=1.0.229", features = ["derive"] }
serde_json = "=1.0.154"
sha2 = "=0.11.1"
tokio = { version = "=1.54.1", features = ["full"] }
tokio-native-tls = "=0.3.1"
toml = "=1.1.8"
tracing = "=0.1.44"
tracing-appender = "*"
tracing-subscriber = { version = "*", features = ["env-filter"] }
tray-icon = { version = "=0.26.1", default-features = false }
webbrowser = "=1.2.6"
windows-sys = { version = "=0.61.2", features = ["Win32_Foundation", "Win32_System_Registry", "Win32_Security"] }
