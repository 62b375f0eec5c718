[package]
name = "toro"
version = "0.1.0"
edition = "2021"
publish = false

[dependencies]
bcrypt = "0.15"
chrono = "0.4"
hex = "0.4"
rand = "0.8"
rocket = { version = "0.5", features = ["json"] }
rocket_db_pools = { version = "0.2", features = ["sqlx_sqlite"] }
maud = { version = "0.26", features = ["rocket"] }
