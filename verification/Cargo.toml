[package]
name = "simply_typed_lambda_calculus_compiler"
version = "0.1.0"
edition = "2021"
publish = false

[dependencies]
peg = "*"
structopt = "*"
