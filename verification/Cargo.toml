[package]
name = "ssh_agent_mux"
version = "0.1.0"
edition = "2021"
publish = false

[dependencies]
log = "0.4"
sha2 = "0.10"
ssh-agent-lib = "0.5"
tokio = { version = "1", features = ["fs", "macros", "net", "rt", "sync", "time"] }
