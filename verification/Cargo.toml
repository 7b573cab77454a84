[package]
name = "pbarber"
version = "0.1.0"
edition = "2021"
publish = false

[dependencies]
clap = { version = "=4.6.7", features = ["derive"] }
colored = "=3.1.1"
flatzinc-serde = "=0.4.4"
rangelist = "0.4"
rev_buf_reader = "=0.3.0"
serde = { version = "=1.0.229", features = ["derive"] }
serde_json = "=1.0.154"
thiserror = "=2.0.21"
ustr = { version = "=1.1.0", features = ["serde"] }
