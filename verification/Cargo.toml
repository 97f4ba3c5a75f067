[package]
name = "mailbox_sync"
version = "0.1.0"
edition = "2021"
publish = false

[dependencies]
dioxus = { version = "=0.4.3", default-features = false, features = ["macro", "html", "hooks"] }
google-gmail1 = "=5.0.5"
html-escape = "=0.2.15"
hyper = { version = "=0.14.32", features = ["client", "http1", "http2", "tcp"] }
hyper-rustls = { version = "=0.25.0", features = ["http2"] }
lettre = { version = "=0.10.4", default-features = false, features = ["builder", "hostname", "smtp-transport", "tokio1-rustls-tls"] }
serde = { version = "=1.0.229", features = ["derive"] }
serde_json = "=1.0.154"
tokio = { version = "=1.54.1", features = ["macros", "rt-multi-thread", "sync"] }
webbrowser = "=0.8.15"
