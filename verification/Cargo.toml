[package]
name = "gate_store"
version = "0.1.0"
edition = "2021"
publish = false

[dependencies]
esp-backtrace = { version = "0.14", features = ["esp32", "panic-handler", "exception-handler", "println"] }
esp-hal = { version = "0.22", features = ["esp32"] }
esp-println = { version = "0.12", features = ["esp32", "log"] }
log = "0.4"
