[package]
name = "os"
version = "0.1.0"
edition = "2021"
publish = false

[dependencies]
spin = "0.5"
pc-keyboard = "0.7"
x86_64 = { version = "0.14", default-features = false, features = ["instructions", "inline_asm"] }
bootloader = { version = "0.9", features = ["map_physical_memory"] }
linked_list_allocator = { version = "0.9", default-features = false }
lazy_static = { version = "1.4", features = ["spin_no_std"] }
pic8259 = { version = "0.10", default-features = false }
uart_16550 = { version = "0.2", default-features = false }
volatile = "0.2"
