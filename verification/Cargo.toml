[package]
name = "rust_os"
version = "0.1.0"
edition = "2021"
publish = false

[dependencies]
linked_list_allocator = { version = "=0.9.1", default-features = false }
spin = "=0.5.2"
x86_64 = { version = "=0.14.13", default-features = false, features = ["instructions"] }
bootloader = { version = "=0.9.35", features = ["map_physical_memory"] }
volatile = "=0.2.7"
lazy_static = { version = "=1.5.1", features = ["spin_no_std"] }
uart_16550 = "=0.2.19"
pic8259 = "=0.10.4"
pc-keyboard = "=0.5.1"
