[package]
name = "turbo_html2pdf_core"
version = "0.1.0"
edition = "2021"
publish = false

[dependencies]
aes = "0.8"
cbc = "0.1"
sha2 = "0.10"
getrandom = "0.2"
html5ever = "0.27"
markup5ever_rcdom = "0.3"
thiserror = "1"
minijinja = "2"
chrono = "0.4"
pdf-writer = "0.12"
rustybuzz = "0.14"
unicode-linebreak = "0.1"
taffy = "0.5"
