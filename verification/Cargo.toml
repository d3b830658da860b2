[package]
name = "hexhashi_logic"
version = "0.1.0"
edition = "2021"
publish = false

[dependencies]
rand = { version = "0.9", features = ["small_rng"] }
leptos = { version = "0.8", features = ["csr"] }
leptos_router = { version = "0.8" }
leptos-use = { version = "0.16" }
serde = { version = "1", features = ["derive"] }
wasm-bindgen = { version = "0.2" }
web-sys = { version = "0.3", features = ["CanvasRenderingContext2d", "HtmlCanvasElement", "Window", "Document", "Performance", "CssStyleDeclaration", "Element", "HtmlCollection", "DomRect", "MouseEvent"] }
