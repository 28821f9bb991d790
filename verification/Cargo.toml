[package]
name = "okq"
version = "0.1.0"
edition = "2021"
publish = false

[dependencies]
okf = { version = "=0.2.7", default-features = false, features = ["validator"] }
pulldown-cmark = { version = "=0.13.6", default-features = false }
regex = "=1.13.1"
ignore = "=0.4.34"
tantivy = { version = "=0.25.0", default-features = false, features = ["mmap", "stopwords"] }
serde = { version = "=1.0.229", features = ["derive"] }
serde_json = "=1.0.154"
schemars = "=1.2.3"
clap = { version = "=4.6.7", features = ["derive"] }
anstream = "=1.0.0"
anstyle = "=1.0.14"
dirs = "=7.0.0"
ureq = { version = "=2.12.1", default-features = false }
