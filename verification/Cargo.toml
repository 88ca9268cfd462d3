[package]
name = "emojifinder"
version = "0.1.0"
edition = "2021"
publish = false

[dependencies]
trigram = "=0.4.4"
lz4 = "=1.28.1"
rayon = "=1.12.0"
clipboard = "=0.5.0"
locale_config = "=0.3.0"
termion = "1.5"
tui = { version = "0.18", default-features = false, features = ["termion"] }
tui-image = "=0.2.0"
image = { version = "0.24", default-features = false }
nsvg = "=0.5.1"
roxmltree = "=0.21.1"
indexmap = "=2.14.2"
env_logger = "=0.11.11"
exitcode = "=1.1.2"
failure = "0.1"
