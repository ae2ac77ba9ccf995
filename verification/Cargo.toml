[package]
name = "entity_hierarchy"
version = "0.1.0"
edition = "2021"
publish = false

[dependencies]
bevy_ecs = "0.15"
bevy_core = "0.15"
bevy_hierarchy = "0.15"
disqualified = "1"
