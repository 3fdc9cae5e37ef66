[package]
name = "emphasis_trainer"
version = "0.1.0"
edition = "2021"
publish = false

[dependencies]
chrono = { version = "0.4", features = ["serde"] }
fxhash = "0.2"
gloo = "0.8"
indexmap = { version = "1.9", features = ["serde"] }
rand = "0.8"
serde = { version = "1", features = ["derive"] }
thiserror = "1"
wasm-bindgen = "0.2"
web-sys = { version = "0.3", features = ["HtmlButtonElement"] }
yew = "0.19"
