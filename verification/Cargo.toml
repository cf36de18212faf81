[package]
name = "libsurfer"
version = "0.1.0"
edition = "2021"
publish = false

[dependencies]
derive_more = { version = "*", features = ["display"] }
egui = { version = "*", default-features = false }
egui_extras = { version = "*", default-features = false }
eyre = "*"
num = "*"
numeric-sort = "*"
serde = { version = "1", features = ["derive"] }
