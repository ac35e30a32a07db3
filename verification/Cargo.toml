[package]
name = "teamy_subs"
version = "0.1.0"
edition = "2021"
publish = false

[dependencies]
vtt = "*"
zip = "*"
eyre = "*"
color-eyre = "*"
chrono = "*"
rand = "*"
directories-next = "*"
facet = "*"
facet-json = "*"
figue = "*"
reqwest = "*"
tokio = { version = "*", features = ["full"] }
teamy-cancellation = "*"
arbitrary = { version = "*", features = ["derive"] }
