[package]
name = "resharp_grep"
version = "0.1.0"
edition = "2021"
publish = false

[dependencies]
resharp = "*"
memchr = "2"
termcolor = "1"
clap = { version = "4", features = ["derive"] }
clap_complete = "4"
ignore = "0.4"
memmap2 = "0.9"
serde = { version = "1", features = ["derive"] }
serde_json = "1"
anyhow = "1"
