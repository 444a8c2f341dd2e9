[package]
name = "transform_cache"
version = "0.1.0"
edition = "2021"
publish = false

[dependencies]
glam = "0.22"
macaw = "0.18"
nohash-hasher = "0.2"
re_arrow_store = "0.6"
re_data_store = "0.6"
re_format = "0.6"
re_log = "0.6"
re_log_types = "0.6"
re_viewer_context = "0.6"
