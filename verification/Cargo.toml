[package]
name = "arb_comp06"
version = "0.1.0"
edition = "2021"
publish = false

[dependencies]
indexmap = "2"
keyed_priority_queue = "0.4"
egui = { version = "0.27", default-features = false }
egui_extras = { version = "0.27", default-features = false }
env_logger = { version = "0.10", default-features = false }
log = "0.4"
rand = "0.8"
rayon = "1"
