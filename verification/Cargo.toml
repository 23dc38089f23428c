[package]
name = "mpu6050-validation"
version = "0.1.0"
edition = "2021"
publish = false

[dependencies]
embedded-hal = "1.0.0"
serde = { version = "1", features = ["derive"] }
serde_json = "1"
chrono = "0.4"
libm = "0.2"
serialport = { version = "4", default-features = false }

[dev-dependencies]
