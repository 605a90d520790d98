[package]
name = "foxy_ircd"
version = "0.1.0"
edition = "2021"
publish = false

[dependencies]
getopts = "0.2"
num_cpus = "1"
serde_json = "1"
ctrlc = "3"
tokio = { version = "0.2", features = ["full"] }
