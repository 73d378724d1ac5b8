//! A chat bot for a streaming channel and the points service behind it:
//! command parsing and replies, configured text commands with variable
//! substitution, per-viewer point ticks, a points store keyed by streamer and
//! viewer, and the API-key check of the web backend.
pub mod text;
pub mod keyed;
pub mod config;
pub mod runtime;
pub mod bot;
pub mod data_server;
pub mod backend;
