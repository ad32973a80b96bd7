[package]
name = "hf_hub"
version = "0.1.0"
edition = "2021"
publish = false

[dependencies]
axum = { version = "=0.8.9", default-features = false, features = ["http1", "tokio"] }
futures = { version = "=0.3.34", default-features = false, features = ["std"] }
hf-xet = "=1.8.0"
http = "=1.5.0"
reqwest = { version = "=0.13.5", default-features = false }
serde_json = "=1.0.154"
sha2 = "=0.10.9"
tempfile = "=3.27.0"
thiserror = "=2.0.21"
tokio = { version = "=1.54.1", default-features = false, features = ["macros", "net", "rt-multi-thread", "sync", "time"] }
xet-client = { version = "=1.8.0", features = ["simulation"] }
xet-runtime = "=1.8.0"
