[package]
name = "beatman"
version = "0.1.0"
edition = "2021"
publish = false

[dependencies]
chrono = "0.4"
clap = { version = "4", features = ["derive"] }
encoding_rs = "0.8"
env_logger = "0.10"
jwalk = "0.8"
log = "0.4"
md-5 = "0.10"
rayon = "1"
regex = "1"
reqwest = { version = "0.11", features = ["blocking", "json"] }
rusqlite = "0.29"
serde = { version = "1", features = ["derive"] }
serde_json = "1"
sha2 = "0.10"
strum_macros = "0.25"
unrar = "0.5"
zip = "0.6"
