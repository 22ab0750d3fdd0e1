[package]
name = "recipe_pipeline"
version = "0.1.0"
edition = "2021"
publish = false

[dependencies]
url = "=2.5.8"
regex = "=1.13.1"
select = "=0.6.1"
sxd-document = "=0.3.2"
sxd-xpath = "=0.4.2"
sxd_html = "=0.1.3"
tokio = { version = "=1.54.1", features = ["rt", "macros", "sync", "time", "net"] }
warp = { version = "=0.3.7", default-features = false, features = ["websocket"] }
reqwest = { version = "=0.11.27", default-features = false, features = ["rustls-tls"] }
redis = { version = "=1.8.1", default-features = false }
amqprs = "=2.1.5"
influxdb2 = { version = "=0.5.2", default-features = false, features = ["rustls"] }
mongodb = { version = "3", default-features = false, features = ["compat-3-0-0", "rustls-tls"] }
serde = { version = "=1.0.229", features = ["derive"] }
bincode = "=1.3.3"
dotenv = "=0.15.0"
colored = "=2.2.0"
fs-err = "=2.11.0"
anyhow = "=1.0.104"
futures = "=0.3.34"
futures-util = "=0.3.34"
tokio-stream = "=0.1.19"
