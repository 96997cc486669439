[package]
name = "i18n_hunt"
version = "0.1.0"
edition = "2021"
publish = false

[dependencies]
clap = { version = "=4.6.7", features = ["derive"] }
oxc_allocator = "=0.120.0"
oxc_ast = "=0.120.0"
oxc_ast_visit = "=0.120.0"
oxc_parser = "=0.120.0"
oxc_span = "=0.120.0"
serde_json = "=1.0.154"
walkdir = "=2.5.0"
