[package]
name = "beggar"
version = "0.1.0"
edition = "2021"
publish = false

[dependencies]
md5 = "*"
hex-simd = "*"
uuid = { version = "*", features = ["v4"] }
s3s = "=0.11.1"
tokio = { version = "*", features = ["full"] }
clap = { version = "*", features = ["derive"] }
config = { version = "*", default-features = false, features = ["yaml"] }
serde = { version = "*", features = ["derive"] }
serde_json = "*"
chrono = "*"
futures = "*"
bytes = "*"
tokio-util = { version = "*", features = ["io"] }
transform-stream = "*"
async-trait = "*"
mime = "*"
numeric_cast = "*"
path-absolutize = "*"
hyper-util = { version = "*", features = ["server", "server-auto", "server-graceful", "http1", "http2", "service", "tokio"] }
tower = { version = "*", features = ["util"] }
tracing = "*"
tracing-subscriber = { version = "*", features = ["env-filter"] }
tracing-error = "*"
sqlx = { version = "*", default-features = false, features = ["postgres", "runtime-tokio", "chrono"] }
