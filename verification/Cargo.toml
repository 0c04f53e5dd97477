[package]
name = "todo_tracker"
version = "0.1.0"
edition = "2021"
publish = false

[dependencies]
chrono = "0.4"
chrono-english = "0.1"
clap = { version = "4", features = ["derive"] }
directories = "*"
owo-colors = "*"
tabled = "*"
