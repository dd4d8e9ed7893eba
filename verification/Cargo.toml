[package]
name = "hermione"
version = "0.1.0"
edition = "2021"
publish = false

[dependencies]
ssri = "*"
flate2 = "1"
tar = "0.4"
semver = "1"
serde = { version = "1", features = ["derive"] }
toml = "*"
url = "*"
confy = "*"
directories = "*"
fs_extra = "*"
lockfile = "*"
reqwest = { version = "*", default-features = false, features = ["blocking", "rustls-tls"] }
duckscript = "*"
duckscriptsdk = "*"
