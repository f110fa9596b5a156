[package]
name = "sumire_bot"
version = "0.1.0"
edition = "2021"
publish = false

[dependencies]
serenity = { version = "0.10", features = ["framework", "standard_framework", "collector", "unstable_discord_api"] }
tokio = { version = "1", features = ["macros", "rt-multi-thread", "time"] }
diesel = { version = "1.4", features = ["postgres", "r2d2", "chrono"] }
chrono = "0.4"
rand = "0.8"
once_cell = "1"
num = "0.4"
fraction = "*"
