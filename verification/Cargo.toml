[package]
name = "gpui_markdown_editor"
version = "0.1.0"
edition = "2021"
publish = false

[dependencies]
pulldown-cmark = { version = "0.13", default-features = false }
unicode-segmentation = "1"
smallvec = "1"
