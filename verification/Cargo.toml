[package]
name = "the_last_signal"
version = "0.1.0"
edition = "2021"
publish = false

[dependencies]
serde = { version = "1", features = ["derive"] }
serde_json = "1"
tempfile = "3"
ureq = { version = "2.12.1", default-features = false, features = ["json"] }
macroquad = "0.4.16"
