[package]
name = "tlrl"
version = "0.1.0"
edition = "2021"
publish = false

[dependencies]
base64 = "0.22"
chrono = "0.4"
image = { version = "0.25", default-features = false, features = ["gif", "jpeg", "ico", "png", "pnm", "tga", "tiff", "webp", "bmp", "hdr"] }
kuchiki = "0.8"
html5ever = "0.25"
reqwest = { version = "0.12", default-features = false, features = ["blocking", "rustls-tls"] }
lettre = "0.9"
lettre_email = "0.9"
mime = "0.3"
clap = "2"
config = { version = "0.9", default-features = false, features = ["json"] }
dirs = "5"
env_logger = "0.10"
log = "0.4"
serde = { version = "1", features = ["derive"] }
serde_json = "1"
failure = "0.1"
