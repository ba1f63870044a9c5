[package]
name = "embedding_sync"
version = "0.1.0"
edition = "2021"
publish = false

[dependencies]
anyhow = "1"
async-openai = "0.23"
csv = "1"
pgvector = { version = "0.4", features = ["postgres"] }
postgres = "0.19"
postgres-types = { version = "0.2", features = ["derive"] }
serde = { version = "1", features = ["derive"] }
tokio = { version = "1", features = ["macros", "rt-multi-thread"] }
tokio-postgres = "0.7"
