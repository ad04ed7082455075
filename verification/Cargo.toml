[package]
name = "vincenzo"
version = "0.1.0"
edition = "2021"
publish = false

[dependencies]
base64 = "0.22"
bytes = "1"
clap = { version = "4", features = ["derive"] }
form_urlencoded = "1"
hashbrown = "0.14"
hex = "0.4"
http = "1"
http-body = "1"
http-body-util = "0.1"
http-range-header = "0.4"
hyper = { version = "1", features = ["http1", "server"] }
hyper-util = { version = "0.1", features = ["http1", "server", "server-graceful", "tokio"] }
magnet-url = "2"
pin-project = "1"
rand = "0.8"
sha1_smol = "1"
thiserror = "1"
time = { version = "0.3", features = ["formatting", "local-offset", "parsing"] }
tokio = { version = "1", features = ["full"] }
tracing = "0.1"
tracing-appender = "0.2"
tracing-subscriber = { version = "0.3", features = ["time"] }
uriparse = "0.6"
urlencoding = "2"
