[package]
name = "mongo_os"
version = "0.1.0"
edition = "2021"
publish = false

[dependencies]
bootloader = { version = "0.9", features = ["map_physical_memory"] }
lazy_static = "1.4"
linked_list_allocator = { version = "0.9", default-features = false }
pc-keyboard = "0.7"
spin = "0.5.2"
x86_64 = { version = "0.14", default-features = false, features = ["instructions"] }
