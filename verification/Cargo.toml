[package]
name = "receqif"
version = "0.1.0"
edition = "2021"
publish = false

[dependencies]
radix_trie = "*"
qif_generator = "*"
chrono = "*"
serde = { version = "1", features = ["derive"] }
serde_json = "1"
pickledb = "*"
csv = "1"
structopt = "0.3"
shellexpand = "*"
