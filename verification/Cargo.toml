[package]
name = "dbrecon"
version = "0.1.0"
edition = "2021"
publish = false

[dependencies]
clap = { version = "*", features = ["derive"] }
rust_decimal = "*"
sqlx = { version = "*", default-features = false, features = ["postgres", "runtime-tokio", "time", "rust_decimal"] }
termcolor = "*"
time = "*"
tokio = { version = "*", features = ["macros", "rt-multi-thread"] }
