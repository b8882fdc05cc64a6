[package]
name = "pubspec_lsp"
version = "0.1.0"
edition = "2021"
publish = false

[dependencies]
marked-yaml = "*"
semver = "1"
tower-lsp-server = "*"
tokio = { version = "1", features = ["rt-multi-thread", "macros", "io-std", "sync", "time"] }
reqwest = { version = "*", default-features = false, features = ["json", "rustls-tls"] }
moka = { version = "*", features = ["future"] }
serde = { version = "1", features = ["derive"] }
serde_json = "1"
dirs = "*"
futures = "0.3"
tracing = "0.1"
zed_extension_api = "*"
