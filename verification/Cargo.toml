[package]
name = "github_team_visualizer"
version = "0.1.0"
edition = "2021"
publish = false

[dependencies]
clap = { version = "=4.6.7", features = ["derive"] }
fixedbitset = "=0.5.7"
octocrab = "=0.47.1"
petgraph = "=0.8.3"
tokio = { version = "=1.54.1", features = ["macros", "rt-multi-thread"] }
