[package]
name = "screeps-combat-agent"
version = "0.1.0"
edition = "2021"
publish = false

[dependencies]
screeps-game-api = "=0.23.5"
