[package]
name = "sis_gadget"
version = "0.1.0"
edition = "2021"
publish = false

[dependencies]
bellman_ce = "=0.3.5"
sapling-crypto_ce = "=0.1.3"
byteorder = "=1.5.0"
bitvec = "=0.17.4"

[dev-dependencies]
rand = "=0.4.6"
