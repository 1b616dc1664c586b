[package]
name = "todo_tasks"
version = "0.1.0"
edition = "2021"
publish = false

[dependencies]
clap = { version = "*", features = ["derive"] }
prettytable-rs = "*"
rand = "*"
