[package]
name = "agent_loadgen"
version = "0.1.0"
edition = "2021"
publish = false

[dependencies]
anyhow = "1"
clap = { version = "4", features = ["derive"] }
flate2 = "1"
futures-util = "0.3"
hdrhistogram = { version = "7", default-features = false }
hex = "0.4"
hf-hub = { version = "0.4", default-features = false, features = ["ureq"] }
json-five = "0.3"
libc = "0.2"
rand = "0.9"
rand_distr = "0.5"
reqwest = { version = "0.12", default-features = false, features = ["json", "stream", "http2"] }
rusqlite = { version = "0.37", features = ["bundled"] }
serde = { version = "1", features = ["derive"] }
serde_json = "1"
sha2 = "0.10"
tempfile = "3"
tokenizers = { version = "0.22", default-features = false, features = ["fancy-regex"] }
tokio = { version = "1", features = ["full"] }
toml = "0.9"
uuid = { version = "1", features = ["v4"] }
