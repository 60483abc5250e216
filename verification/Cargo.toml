[package]
name = "minecraft_player"
version = "0.1.0"
edition = "2021"
publish = false

[dependencies]
sha1_smol = "1"
anyhow = "1"
apodize = "*"
bytes = "1"
clap = { version = "4", features = ["derive"] }
futures = "0.3"
hound = "3"
inquire = "*"
lewton = "0.10"
ocl = "*"
rayon = "1"
reqwest = { version = "0.12", default-features = false, features = ["json", "rustls-tls"] }
rustfft = "6"
serde = { version = "1", features = ["derive"] }
serde_json = "1"
tokio = { version = "1", features = ["full"] }
