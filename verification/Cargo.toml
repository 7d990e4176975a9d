[package]
name = "csound_plugin"
version = "0.1.0"
edition = "2021"
publish = false

[dependencies]
bit_mask_ring_buf = "=0.6.2"
quick-xml = "=0.38.4"
