[package]
name = "shootadoc"
version = "0.1.0"
edition = "2021"
publish = false

[dependencies]
image = "*"
structopt = "0.3"
