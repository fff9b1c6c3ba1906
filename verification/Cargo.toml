[package]
name = "sort_merge_join"
version = "0.1.0"
edition = "2021"
publish = false

[dependencies]
arrow = { version = "*", default-features = false, features = ["prettyprint"] }
async-trait = "*"
futures = "*"
