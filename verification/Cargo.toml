[package]
name = "astrolabe_core"
version = "0.1.0"
edition = "2021"
publish = false

[dependencies]
flate2 = "1"
hex = "0.4"
lsp-types = "0.97"
memchr = "2"
moka = { version = "0.12", features = ["sync"] }
rayon = "1"
serde = { version = "1", features = ["derive"] }
serde_json = "1"
sha2 = "0.10"
tar = "0.4"
thiserror = "2"
tracing = "0.1"
ureq = "2"
zip = { version = "2", default-features = false, features = ["deflate"] }

[dev-dependencies]
tempfile = "3"
