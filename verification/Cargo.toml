[package]
name = "elf_rewrite"
version = "0.1.0"
edition = "2021"

[dependencies]
goblin = "*"
scroll = "*"
