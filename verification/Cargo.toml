[package]
name = "lookaround"
version = "0.1.0"
edition = "2021"
publish = false

[dependencies]
rand = "0.8"
tokio = { version = "1", features = ["net", "rt", "time"] }
mac_address = "1"
configparser = "3"
directories = "5"
