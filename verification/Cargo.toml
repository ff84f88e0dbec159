[package]
name = "crate_metadata_updater"
version = "0.1.0"
edition = "2021"
publish = false

[dependencies]
aws-config = "*"
aws-sdk-codebuild = "*"
aws-sdk-dynamodb = "*"
cargo_toml = "*"
futures = "0.3"
tokio = { version = "1", features = ["macros", "rt-multi-thread"] }
