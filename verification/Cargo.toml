[package]
name = "deshred"
version = "0.1.0"
edition = "2021"
publish = false

[dependencies]
bytes = "=1.12.1"
clap = { version = "=4.6.7", features = ["derive"] }
crossbeam-channel = "=0.5.17"
ctrlc = "=3.5.2"
env_logger = "=0.11.11"
fixedbitset = "=0.5.7"
log = "=0.4.35"
nix = { version = "=0.31.3", features = ["socket", "uio", "net"] }
reed-solomon-erasure = "=6.0.0"
socket2 = "=0.6.5"
solana-hash = { version = "=4.7.0", features = ["wincode"] }
solana-sha256-hasher = { version = "=3.1.0", features = ["sha2"] }
solana-transaction = { version = "=6.0.0", features = ["wincode"] }
thiserror = "=2.0.21"
wincode = "=0.6.3"

[dev-dependencies]
solana-message = { version = "=6.0.0", features = ["wincode"] }
solana-signature = { version = "=3.6.0", features = ["wincode"] }
