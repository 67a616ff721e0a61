[package]
name = "zigzag"
version = "0.1.0"
edition = "2021"
publish = false

[dependencies]
rand = "=0.4.6"
blake2s_simd = "=1.0.5"
blake2b_simd = "=1.0.5"
