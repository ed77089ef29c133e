[package]
name = "hunksplit"
version = "0.1.0"
edition = "2021"
publish = false

[dependencies]
itertools = "=0.15.0"
anyhow = "=1.0.104"
clap = { version = "=4.5.61", features = ["derive"] }
tokio = { version = "=1.53.2", features = ["macros", "rt-multi-thread"] }
jj-lib = { version = "=0.43.0", default-features = false }
