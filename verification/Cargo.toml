[package]
name = "breadbin"
version = "0.1.0"
edition = "2021"
publish = false

[dependencies]
regex = "1"
serde_json = "1"
flate2 = "1"
encoding_rs = "0.8"
shlex = "1"
zip = { version = "2", default-features = false, features = ["deflate"] }
resid-rs = "*"
ureq = "2"
rusqlite = { version = "*", features = ["bundled"] }
which = "*"
image = { version = "0.25", default-features = false, features = ["png", "jpeg", "gif"] }
ratatui = "0.29"
crossterm = "0.28"
ratatui-image = { version = "8", default-features = false, features = ["crossterm"] }
async-channel = "2"
gtk4 = "0.9"
libadwaita = "0.7"
gdk4 = "0.9"
glib = "0.20"
