[package]
name = "knightos"
version = "0.1.0"
edition = "2021"
publish = false

[dependencies]
bitfield-struct = "*"
lazy_static = "*"
linked_list_allocator = "*"
spin = "*"
