[package]
name = "grcov"
version = "0.1.0"
edition = "2021"
publish = false

[dependencies]
rustc-hash = "1"
quick-xml = "0.36"
semver = "1"
regex = "1"
globset = "0.4"
symbolic-common = "12"
symbolic-demangle = { version = "12", default-features = false, features = ["cpp", "msvc", "rust"] }
smallvec = "1"
md-5 = "0.10"
uuid = { version = "1", features = ["v4"] }
serde = { version = "1", features = ["derive"] }
serde_json = "1"
clap = { version = "4", features = ["derive", "cargo"] }
crossbeam-channel = "0.5"
simplelog = "0.12"
log = "0.4"
num_cpus = "1"
tempfile = "3"
walkdir = "2"
zip = { version = "2", default-features = false, features = ["deflate"] }
flate2 = "1"
tera = "1"
chrono = "0.4"
rayon = "1"
tabled = "0.16"
lazy_static = "1"
rustc_version = "0.4"
