[package]
name = "opal"
version = "0.1.0"
edition = "2021"
publish = false

[dependencies]
blake3 = "=1.8.7"
clap = { version = "4", features = ["derive"] }
flate2 = "=1.1.10"
libc = "0.2"
oxc_allocator = "0.143"
oxc_ast = "0.143"
oxc_ast_visit = "0.143"
oxc_parser = "0.143"
oxc_span = "0.143"
serde = { version = "1", features = ["derive"] }
serde_json = { version = "=1.0.154", features = ["preserve_order"] }
sha1 = "=0.11.0"
sha2 = "=0.11.1"
tar = "=0.4.46"
thiserror = "2"
ureq = "3"
