[package]
name = "vau"
version = "0.1.0"
edition = "2021"
publish = false

[dependencies]
regex = "=1.13.1"
serde = { version = "=1.0.229", features = ["derive"] }
siena = "=3.2.1"
tera = { version = "=2.4.0", features = ["glob_fs"] }
toml = "=1.1.6"
notify = "=8.2.0"
notify-debouncer-mini = "=0.7.0"
