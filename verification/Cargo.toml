[package]
name = "everything_imu"
version = "0.1.0"
edition = "2021"
publish = false

[dependencies]
async-trait = "=0.1.92"
hidapi = { version = "=2.6.7", default-features = false, features = ["linux-native-basic-udev"] }
rosc = "=0.10.1"
self_update = { version = "=0.42.0", default-features = false, features = ["rustls"] }
serde = { version = "=1.0.229", features = ["derive"] }
specta = "=1.0.5"
thiserror = "=2.0.21"
tokio = { version = "=1.54.1", features = ["rt", "sync", "time", "macros"] }
tracing = "=0.1.44"
