[package]
name = "asf"
version = "0.1.0"
edition = "2021"
publish = false

[dependencies]
quick_cache = "*"
rayon = "1"
itertools = "*"
serde = { version = "1", features = ["derive"] }
csv = "1"
bincode = "1"
iced = { version = "0.13", default-features = false, features = ["tiny-skia"] }
iced_aw = { version = "0.12", default-features = false, features = ["number_input"] }
iced_core = "0.13"
