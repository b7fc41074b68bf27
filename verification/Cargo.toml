[package]
name = "kernel_mm"
version = "0.1.0"
edition = "2021"
publish = false

[dependencies]
x86_64 = "=0.15.5"
bootloader = "=0.9.35"
spin = "=0.12.3"
linked_list_allocator = "=0.10.6"
crossbeam-queue = "=0.3.14"
conquer-once = "=0.4.0"
futures-util = "=0.3.34"
pc-keyboard = "=0.9.0"
