[package]
name = "dynamo_rename"
version = "0.1.0"
edition = "2021"
publish = false

[dependencies]
regex = "1"
aws-config = "0.9.0"
aws-sdk-dynamodb = "0.9.0"
aws-smithy-types = "0.39.0"
structopt = "0.3"
tokio = { version = "1", features = ["macros", "rt-multi-thread"] }
