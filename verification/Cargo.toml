[package]
name = "claim_bot"
version = "0.1.0"
edition = "2021"
publish = false

[dependencies]
diesel = { version = "=1.4.8", features = ["postgres"] }
dotenv = "=0.15.0"
serenity = "0.8"
