[package]
name = "mdbook-frontmatter-fix"
version = "0.5.0"
edition = "2021"
publish = false

[dependencies]
clap = { version = "4", features = ["derive"] }
mdbook-frontmatter-strip = "*"

[dev-dependencies]
tempfile = "3"
