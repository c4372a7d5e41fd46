[package]
name = "ayame_spell"
version = "0.1.0"
edition = "2021"
publish = false

[dependencies]
typos-dict = "=0.14.4"
unicase = "=2.10.0"
fst = { version = "=0.4.7", features = ["levenshtein"] }
regex = "=1.13.1"
unicode-normalization = "=0.1.26"
globset = "=0.4.21"
sha2 = "=0.10.9"
memchr = "=2.8.3"
anyhow = "=1.0.104"
serde = { version = "=1.0.229", features = ["derive"] }
serde_json = "=1.0.154"
serde_yaml = "=0.9.34"
toml = "=0.8.23"
toml_edit = "=0.22.27"
clap = { version = "=4.6.7", features = ["derive"] }
clap_complete = "=4.6.11"
dialoguer = "=0.11.0"
dirs = "=5.0.1"
ignore = "=0.4.34"
crossbeam-channel = "=0.5.17"
lsp-server = "=0.7.9"
lsp-types = "=0.97.0"
percent-encoding = "=2.3.2"
ureq = "=3.5.1"
libc = "=0.2.191"
