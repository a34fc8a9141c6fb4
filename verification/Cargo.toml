[package]
name = "wrx"
version = "0.1.0"
edition = "2021"
publish = false

[dependencies]
bno080 = "*"
embedded-hal = "0.2"
futures = "0.3"
lexical-core = "*"
libm = "0.2"
mint = "0.5"
nalgebra = "0.33"
nb = "1"
panic-halt = "*"
r2r = "0.9"
rotary-encoder-hal = "0.5"
serial2-tokio = "0.1"
tokio = { version = "1", features = ["macros", "rt", "io-util"] }
ufloat = "*"
ufmt = "0.2"
