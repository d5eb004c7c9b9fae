[package]
name = "bes"
version = "0.1.0"
edition = "2021"
publish = false

[dependencies]
ammonia = "3"
chrono = "0.4"
clap = { version = "4", features = ["derive"] }
css-inline = { version = "*", default-features = false }
diesel = { version = "2", features = ["sqlite"] }
dirs = "5"
mailparse = "0.14"
serde = { version = "1", features = ["derive"] }
serde_derive = "1"
sha2 = "0.10"
tokio = { version = "1", features = ["macros", "rt-multi-thread"] }
toml = "0.7"
