[package]
name = "polybot"
version = "0.1.0"
edition = "2021"
publish = false

[dependencies]
fasteval = "0.2"
serde = { version = "1", features = ["derive"] }
toml = "0.5"
tokio = { version = "1", features = ["macros", "rt-multi-thread", "time"] }
twitch-irc = "2"
dirs = "3"
signal-hook = "0.3"
