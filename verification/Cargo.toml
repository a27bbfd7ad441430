[package]
name = "udp_ftp_stateless"
version = "0.1.0"
edition = "2021"
publish = false

[dependencies]
raptor-code = "1"
raptorq = "*"
bincode = "1"
serde = { version = "1", features = ["derive"] }
async-std = "1"
dotenv = "0.15"
uuid = { version = "1", features = ["v4"] }
