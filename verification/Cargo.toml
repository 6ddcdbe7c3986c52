[package]
name = "libpack"
version = "0.1.0"
edition = "2021"
publish = false

[dependencies]
anyhow = "=1.0.104"
deno_ast = { version = "=0.29.5", features = ["transpiling", "codegen", "visit", "utils"] }
deno_graph = { version = "=0.55.0", features = ["type_tracing"] }
import_map = "=0.15.0"
indexmap = "=2.7.1"
jsonc-parser = { version = "=0.21.1", features = ["serde"] }
serde = { version = "=1.0.217", features = ["derive"] }
serde_json = "=1.0.138"
wasm-bindgen = "0.2"
serde-wasm-bindgen = "=0.5.0"
console_error_panic_hook = "0.1"
