[package]
name = "dagshield"
version = "0.1.0"
edition = "2021"
publish = false

[dependencies]
anyhow = "*"
ark-bn254 = "*"
ark-groth16 = "*"
ark-r1cs-std = "*"
ark-relations = "*"
ark-serialize = "*"
ark-std = "*"
battery = "*"
chrono = { version = "*", default-features = false, features = ["clock", "std"] }
hex = "*"
serde = { version = "*", features = ["derive"] }
sha3 = "*"
sysinfo = { version = "*", default-features = false, features = ["system", "network"] }
tokio = { version = "*", features = ["rt-multi-thread", "macros", "time", "sync"] }
tracing = "*"
uuid = { version = "*", features = ["v4"] }
