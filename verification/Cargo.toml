[package]
name = "slot_lookup"
version = "0.1.0"
edition = "2021"
publish = false

[dependencies]
solana-rpc-client = "=3.1.14"
solana-rpc-client-api = "=3.1.14"
solana-pubkey = "3"
solana-signature = "3"
solana-transaction-status-client-types = "=3.1.14"

[dev-dependencies]
bs58 = "=0.5.1"
