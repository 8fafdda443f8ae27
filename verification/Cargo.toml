[package]
name = "rings_core"
version = "0.1.0"
edition = "2021"
publish = false

[dependencies]
anyhow = "=1.0.104"
async-trait = "=0.1.92"
bellpepper-core = "=0.4.0"
bincode = "=1.3.3"
circom-scotia = "=0.2.0"
ff = "=0.13.1"
log = "=0.4.34"
nova-snark = "=0.76.0"
serde = { version = "=1.0.229", features = ["derive"] }
