[package]
name = "fourward"
version = "0.1.0"
edition = "2021"
publish = false

[dependencies]
anyhow = "1"
aws-config = "1"
aws-sdk-cloudformation = "1"
aws-sdk-route53 = "1"
aws-sdk-s3 = "1"
aws-sdk-sesv2 = "1"
aws-sdk-ssm = "1"
aws-sdk-sts = "1"
aws_lambda_events = "*"
base64 = "0.22"
clap = { version = "4", features = ["derive"] }
comfy-table = "7"
hex = "0.4"
inquire = "0.7"
lambda_http = "*"
lambda_runtime = "*"
mail-builder = "0.4"
mail-parser = "0.11"
rand = "0.8"
rsa = { version = "0.9", features = ["sha2"] }
serde = { version = "1", features = ["derive"] }
serde_json = "1"
sha2 = { version = "0.10", features = ["oid"] }
thiserror = "1"
tokio = { version = "1", features = ["macros", "rt-multi-thread", "time"] }
tracing = "0.1"
tracing-subscriber = { version = "0.3", features = ["env-filter", "json"] }
