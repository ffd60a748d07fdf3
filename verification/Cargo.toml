[package]
name = "cheesecake_kernel"
version = "0.1.0"
edition = "2021"
publish = false

[dependencies]
noto-sans-mono-bitmap = "=0.3.2"
bootloader_api = "=0.11.17"
spin = "=0.9.9"
x86_64 = { version = "=0.15.5", default-features = false, features = ["instructions"] }
uart_16550 = "=0.3.2"
volatile = "=0.2.7"
linked_list_allocator = "=0.10.6"
