[package]
name = "sklauncher"
version = "0.1.0"
edition = "2021"
publish = false

[dependencies]
indexmap = "*"
shlex = "*"
clap = { version = "*", features = ["derive"] }
serde = { version = "*", features = ["derive"] }
toml = "*"
xdg = "*"
skim = "*"
regex = "*"
lazy_static = "*"

[dev-dependencies]
rust-ini = "*"
lenient_bool = "*"
