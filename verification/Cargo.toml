[package]
name = "st"
version = "0.1.0"
edition = "2021"
publish = false

[dependencies]
clap = { version = "*", features = ["derive"] }
cli-table = "*"
git2 = { version = "*", default-features = false }
inquire = { version = "*", features = ["editor"] }
nu-ansi-term = "*"
octocrab = "=0.41.2"
serde = { version = "*", features = ["derive"] }
thiserror = "*"
tokio = { version = "*", features = ["macros", "rt-multi-thread"] }
toml = "*"
