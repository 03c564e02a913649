[package]
name = "html_streaming_editor"
version = "0.8.0"
edition = "2021"
publish = false

[dependencies]
tl = "0.7"
html-escape = "0.2"
regex = "1"
clap = { version = "4", features = ["derive"] }
exitcode = "1"
pretty_env_logger = "*"
log = "0.4"
