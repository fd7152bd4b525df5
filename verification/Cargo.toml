[package]
name = "plasma_operator"
version = "0.1.0"
edition = "2021"
publish = false

[dependencies]
bytes = "=0.4.12"
ethabi = "=18.0.0"
ethereum-types = "=0.6.0"
ethsign = "=0.9.0"
futures = "=0.1.31"
hex = "=0.3.2"
tiny-keccak = "=1.5.0"
tokio = "=0.1.22"
web3 = "=0.8.0"
