[package]
name = "floneumin_language"
version = "0.1.0"
edition = "2021"
publish = false

[dependencies]
anyhow = "1"
async-openai = "0.14"
async-trait = "0.1"
dioxus = "0.4"
dioxus-free-icons = { version = "0.7", features = ["ionicons"] }
dioxus-signals = "0.4"
futures-util = "0.3"
log = "0.4"
petgraph = { version = "0.6", features = ["serde-1"] }
pin-project = "1"
serde = { version = "1", features = ["derive"] }
tokio = { version = "1", features = ["full"] }
tracing = "0.1"
