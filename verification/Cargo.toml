[package]
name = "note_to_self"
version = "0.1.0"
edition = "2021"
publish = false

[dependencies]
actix-files = "=0.6.10"
actix-session = { version = "=0.10.1", features = ["cookie-session"] }
actix-web = { version = "=4.18.1", features = ["macros"] }
console_error_panic_hook = "=0.1.7"
dotenv = "=0.15.0"
leptos = { version = "=0.7.8", features = ["ssr"] }
leptos_actix = "=0.7.8"
leptos_meta = { version = "=0.7.8", features = ["ssr"] }
leptos_router = { version = "=0.7.8", features = ["ssr"] }
serde = { version = "=1.0.229", features = ["derive"] }
server_fn = "=0.7.8"
sqlx = { version = "=0.8.6", default-features = false, features = ["postgres", "runtime-tokio"] }
wasm-bindgen = "=0.2.129"
web-sys = { version = "=0.3.106", features = ["Performance", "Window"] }
