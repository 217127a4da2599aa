[package]
name = "settlement"
version = "0.1.0"
edition = "2021"
publish = false

[dependencies]
bevy = { version = "=0.6.1", default-features = false }
bevy_prototype_lyon = "=0.4.0"
# Nothing here calls darling. bevy 0.6's derive crates use items of syn 1 that
# only its `full` feature has, without asking for the feature; darling asks
# for it, and so they build.
darling = "=0.13.4"
rand = "=0.8.8"
