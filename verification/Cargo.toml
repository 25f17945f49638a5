[package]
name = "hermis"
version = "0.1.0"
edition = "2021"
publish = false

[dependencies]
rand = "0.8"
rand_pcg = "0.3"
rand_seeder = "0.2"
serde = { version = "1", features = ["derive"] }
serde_json = "1"
clap = { version = "4", features = ["derive"] }
anyhow = "1"
rss = "2"
reqwest = { version = "0.11", default-features = false, features = ["blocking", "rustls-tls"] }
actix-web = { version = "4", default-features = false, features = ["macros"] }
