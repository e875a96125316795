[package]
name = "mly"
version = "0.1.0"
edition = "2021"
publish = false

[dependencies]
clap = { version = "=4.6.7", features = ["derive"] }
midly = "=0.5.3"
rayon = "=1.12.0"
textwrap = { version = "=0.16.4", features = ["terminal_size"] }
