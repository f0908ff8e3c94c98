[package]
name = "u_schedule"
version = "0.1.0"
edition = "2021"
publish = false

[dependencies]
rand = "=0.10.3"
serde = { version = "=1.0.229", features = ["derive"] }
u-metaheur = "=0.14.1"
u-numflow = "=0.15.0"
