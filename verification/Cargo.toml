[package]
name = "tidy"
version = "0.1.0"
edition = "2021"
publish = false

[dependencies]
unicode-segmentation = "1"
unicode-normalization = "0.1"
icu = "1"
icu_collator = "1"
icu_testdata = "1"
rand = "0.9"
clap = { version = "4", features = ["derive"] }
serde = { version = "1", features = ["derive"] }
serde_json = "1"
radix_fmt = "1"
