[package]
name = "esp_hal_utils"
version = "0.1.0"
edition = "2021"
publish = false

[dependencies]
anyhow = { version = "=1.0.104", default-features = false }
defmt = "=1.2.0"
embassy-embedded-hal = "=0.6.0"
embassy-executor = "=0.10.0"
embassy-sync = "=0.8.0"
embassy-time = "=0.5.1"
embedded-hal-async = "=1.0.0"
embedded-io-async = "=0.7.0"
esp-hal = { version = "=1.0.0", features = ["defmt", "esp32c6", "unstable"] }
heapless = "=0.8.0"
