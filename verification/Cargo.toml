[package]
name = "bitcoin_gcs"
version = "0.1.0"
edition = "2021"
publish = false

[dependencies]
bitcoin = "=0.32.102"
bitstream-io = "=2.6.0"
byteorder = "=1.5.0"
siphasher = "=1.0.4"
