[package]
name = "tensile"
version = "0.1.0"
edition = "2021"
publish = false

[dependencies]
failure = "0.1"
futures = "0.3"
structopt = "0.3"
structopt-derive = "0.4"
termcolor = "1"
tokio = { version = "1", features = ["rt"] }
