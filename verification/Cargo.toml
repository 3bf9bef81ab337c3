[package]
name = "rateio"
version = "0.1.0"
edition = "2021"
publish = false

[dependencies]
quick-xml = "=0.38.4"
regex = "=1.13.1"
serde = { version = "=1.0.229", features = ["derive"] }
actix-web = "=4.18.1"
actix-cors = "=0.7.2"
