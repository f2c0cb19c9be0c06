[package]
name = "agent_knowledge"
version = "0.1.0"
edition = "2021"
publish = false
