[package]
name = "generational_indextree"
version = "0.1.0"
edition = "2021"
publish = false

[dependencies]
generational-arena = "0.2"
rayon = "1"
serde = { version = "1", features = ["derive"] }
