[package]
name = "data_collect"
version = "0.1.0"
edition = "2021"
publish = false

[dependencies]
minidom = "*"
chrono = "0.4"
serde = { version = "1", features = ["derive"] }
csv = "1"
argparse = "0.2"
dotenv = "0.15"
log = "0.4"
log4rs = "1"
zip = { version = "*", default-features = false, features = ["deflate"] }
polars = { version = "*", default-features = false, features = ["csv"] }
