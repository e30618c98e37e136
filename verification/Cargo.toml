[package]
name = "semcode"
version = "0.1.0"
edition = "2021"
publish = false

[dependencies]
anyhow = "1"
arrow = { version = "57", default-features = false }
chrono = "=0.4.45"
colored = "3"
futures = "0.3"
gix = "=0.78.0"
indicatif = "0.18"
# Held below 2.0.5, which asks for a newer compiler.
kstring = "=2.0.2"
num_cpus = "1"
owo-colors = "4"
regex = "=1.13.1"
serde_json = "=1.0.154"
tokio = { version = "1", features = ["rt-multi-thread", "macros", "sync", "time"] }
tracing = "0.1"
