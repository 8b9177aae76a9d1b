[package]
name = "rugus"
version = "0.1.0"
edition = "2021"
publish = false

[dependencies]
sha2 = "0.10"
rand_core = "0.6"
linked_list_allocator = "0.10"
heapless = "0.8"
anyhow = "1"
