[package]
name = "canvas_replay"
version = "0.1.0"
edition = "2021"
publish = false

[dependencies]
aformat = "*"
clap = "*"
dotenvy = "*"
hsv = "*"
image = "*"
serde_json = "*"
sqlx = { version = "*", features = ["runtime-tokio", "sqlite"] }
to-arraystring = "*"
tokio = { version = "*", features = ["rt-multi-thread", "macros"] }
