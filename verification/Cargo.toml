[package]
name = "reach"
version = "0.1.0"
edition = "2021"
publish = false

[dependencies]
sha2 = "0.10"
regex = "1"
globset = "0.4"
strsim = "0.11"
imara-diff = "0.1"
base64 = "0.22"
shlex = "1"
encoding_rs = "0.8"
chardetng = "0.1"
content_inspector = "0.2"
serde = { version = "1", features = ["derive"] }
serde_json = "1"
jiter = "*"
html_to_markdown = "*"
dirs = "*"
