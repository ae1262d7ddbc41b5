[package]
name = "ects_calc"
version = "0.1.0"
edition = "2021"
publish = false

[dependencies]
directories = "6"
ratatui = "0.29"
serde = { version = "1", features = ["derive"] }
thiserror = "2"
toml = "0.8"
