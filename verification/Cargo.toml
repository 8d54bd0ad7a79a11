[package]
name = "block_editor"
version = "0.1.0"
edition = "2021"
publish = false

[dependencies]
leptos = { version = "0.1", default-features = false, features = ["csr", "stable"] }
web-sys = { version = "0.3", features = ["CharacterData", "Document", "DomRect", "Element", "Event", "HtmlElement", "KeyboardEvent", "Node", "Range", "Selection", "Text", "Window"] }
console_log = "1"
log = "0.4"
console_error_panic_hook = "0.1"
