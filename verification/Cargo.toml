[package]
name = "conll_yago"
version = "0.1.0"
edition = "2021"
publish = false

[dependencies]
allocator-api2 = "=0.2.21"
apache-avro = "=0.16.0"
arrow2 = { version = "=0.17.4", default-features = false, features = ["io_parquet", "io_parquet_zstd"] }
arrow2_convert = "=0.5.0"
clap = { version = "=4.6.7", features = ["derive"] }
hashbrown = "=0.16.1"
serde = { version = "=1.0.229", features = ["derive"] }
unicode-normalization = "=0.1.26"
uuid = { version = "=1.29.0", features = ["v4"] }

[dev-dependencies]
itertools = "=0.10.5"
lazy-regex = "=3.6.2"
