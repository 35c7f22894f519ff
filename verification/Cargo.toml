[package]
name = "scilla"
version = "0.1.0"
edition = "2021"
publish = false

[dependencies]
anyhow = "=1.0.104"
console = { version = "=0.16.6", default-features = false, features = ["std"] }
solana-instruction = "3"
solana-keypair = "3"
solana-message = "3"
solana-rpc-client = { version = "=3.1.14", default-features = false }
solana-transaction = "3"
thiserror = "=2.0.21"
tokio = { version = "=1.54.1", features = ["macros", "rt-multi-thread"] }
toml = { version = "=1.1.8", default-features = false, features = ["parse", "std"] }
