[package]
name = "bogokernel"
version = "0.1.0"
edition = "2021"
publish = false

[dependencies]
goblin = "*"
heapless = "0.8"
linked_list_allocator = "*"
riscv = "*"
spin = "*"
