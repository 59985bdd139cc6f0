[package]
name = "shm_ipc"
version = "0.1.0"
edition = "2021"
publish = false

[dependencies]
string-builder = "0.2"
napi = { version = "2", default-features = false, features = ["napi4", "async"] }
napi-derive = "2"
tokio = { version = "1", features = ["rt", "rt-multi-thread"] }
futures = "0.3"
serde = { version = "1", features = ["derive"] }
bincode = "1"
winapi = { version = "0.3", features = ["minwindef", "winnt", "winbase", "winerror", "synchapi", "handleapi", "errhandlingapi", "memoryapi"] }
widestring = "1"
