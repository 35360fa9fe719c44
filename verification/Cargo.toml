[package]
name = "rdl_parser"
version = "0.1.0"
edition = "2021"
publish = false

[dependencies]
unic-ucd-ident = "0.9"
ordered-float = "2"
clap = "2"
textwrap = "0.16"
tracing = "0.1"
tracing-subscriber = "0.3"
