[package]
name = "cost_trend"
version = "0.1.0"
edition = "2021"
publish = false

[dependencies]
aws-config = { version = "=1.12.0", features = ["behavior-version-latest"] }
aws-sdk-costexplorer = "=1.133.0"
aws-sdk-organizations = "=1.132.0"
aws-sdk-sts = "=1.119.0"
aws-types = "=1.6.0"
chrono = "=0.4.45"
clap = { version = "=4.6.7", features = ["derive"] }
csv = "=1.4.0"
plotters = "=0.3.7"
prettytable-rs = "=0.10.0"
serde = { version = "=1.0.229", features = ["derive"] }
serde_json = "=1.0.154"
tokio = { version = "=1.54.1", features = ["full"] }
