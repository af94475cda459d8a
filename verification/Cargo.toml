[package]
name = "qos"
version = "0.1.0"
edition = "2021"
publish = false

[dependencies]
min-max-heap = "=1.3.0"
hashbrown = "=0.15.5"
rand = "=0.9.5"
agave-scheduler-bindings = { version = "=4.1.2", features = ["agave-unstable-api"] }
agave-scheduling-utils = { version = "=4.1.2", features = ["agave-unstable-api"] }
agave-transaction-view = { version = "=4.1.2", features = ["agave-unstable-api"] }
agave-feature-set = { version = "=4.1.2", features = ["agave-unstable-api"] }
solana-fee = { version = "=4.1.2", features = ["agave-unstable-api"] }
solana-svm-transaction = { version = "=4.1.2", features = ["agave-unstable-api"] }
solana-cost-model = "=4.1.2"
solana-compute-budget-instruction = "=4.1.2"
solana-runtime-transaction = "=4.1.2"
solana-fee-structure = "*"
rts-alloc = "=4.0.0"
shaq = "=3.0.0"
solana-pubkey = "4"
solana-packet = "4"
solana-transaction = { version = "4", features = ["serde"] }
crossbeam-channel = "=0.5.17"
ctrlc = "=3.5.2"
signal-hook = "=0.4.6"
bincode = { version = "=2.0.1", features = ["serde"] }
tempfile = "=3.27.0"
static_assertions = "=1.1.0"
