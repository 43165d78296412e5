[package]
name = "rust_hotpath_ipc"
version = "0.1.0"
edition = "2021"
publish = false

[dependencies]
bytemuck = { version = "=1.25.2", features = ["derive"] }
core_affinity = "=0.8.3"
ctrlc = "=3.5.2"
iceoryx2 = { version = "=0.7.0", features = ["libc_platform"] }
libc = "=0.2.191"
once_cell = "=1.21.4"
parking_lot = "=0.12.5"
tiny_http = "=0.12.0"
tokio = { version = "=1.54.1", features = ["macros", "rt", "rt-multi-thread", "sync", "time"] }
tracing = "=0.1.44"
