[package]
name = "chian"
version = "0.1.0"
edition = "2021"
publish = false

[dependencies]
hashbrown = "=0.17.1"
nohash-hasher = "=0.2.0"
rand = "=0.10.3"
ratatui = "=0.30.2"
tokio = { version = "=1.54.1", features = ["macros", "rt-multi-thread"] }
futures-util = "=0.3.34"
dotenv = "=0.15.0"
litchee = "=0.1.11"
