[package]
name = "media_api"
version = "0.1.0"
edition = "2021"
publish = false

[dependencies]
async-trait = "0.1"
bytes = "1"
dotenvy = "0.15"
frame-header = "=0.2.2"
futures-util = "0.3"
http = "1"
num_cpus = "=1.17.0"
prost = "0.13"
serde_json = "1"
soundkit = "=0.12.3"
soundkit-opus = "=0.13.0"
structopt = "0.3"
tcp-changes = "=0.1.0"
tls-helpers = "=0.2.0"
tokio = { version = "1", features = ["full"] }
tokio-rustls = "0.26"
tokio-stream = "0.1"
tokio-util = "0.7"
tonic = "0.13"
tracing = "0.1"
tracing-subscriber = { version = "0.3", features = ["env-filter"] }
