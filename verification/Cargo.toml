[package]
name = "minimal_k_isomorphic_subgraph_extension"
version = "0.1.0"
edition = "2021"
publish = false

[dependencies]
rand = "0.8"
clap = { version = "4", features = ["derive"] }
nom = "7"
