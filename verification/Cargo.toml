[package]
name = "sqlbridge"
version = "0.1.0"
edition = "2021"
publish = false

[dependencies]
postgres = "=0.19.14"
openssl = "=0.10.81"
postgres-openssl = "=0.5.3"
serde = "=1.0.229"
serde_json = "=1.0.151"
yup-oauth2 = "=12.1.2"
google-script1 = "=7.0.0"
hyper = "=1.12.0"
hyper-rustls = "=0.27.10"
hyper-util = "=0.1.21"
tokio = { version = "=1.53.2", features = ["rt"] }
open = "=5.4.4"
async-trait = "*"
