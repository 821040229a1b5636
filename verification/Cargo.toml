[package]
name = "timetable"
version = "0.1.0"
edition = "2021"
publish = false

[dependencies]
regex = "*"
rand = "*"
min-max-heap = "*"
actix-web = "*"
actix-cors = "*"
actix-rt = "*"
awc = "*"
serde = { version = "*", features = ["derive"] }
serde_json = "*"
qstring = "*"
r2d2_redis = "*"
http = "*"
