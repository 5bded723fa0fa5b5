[package]
name = "altered_state"
version = "0.1.0"
edition = "2021"
publish = false

[dependencies]
sha1 = "0.10"
hex = "0.4"
base64 = "0.22"
anyhow = "1"
clap = { version = "4", features = ["derive"] }
clap-verbosity-flag = "*"
serde = { version = "1", features = ["derive"] }
serde_json = "1"
tokio = { version = "1", features = ["full"] }
ldap3 = { version = "0.11", default-features = false, features = ["gssapi"] }
oxicode = "*"
chrono = "0.4"
log = "0.4"
tracing = "0.1"
tracing-subscriber = "0.3"
axum = "*"
tower-http = { version = "*", features = ["fs"] }
colored = "*"
indicatif = "*"
config = { version = "*", default-features = false, features = ["json"] }
