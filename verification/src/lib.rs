//! The verified core of kanaweb-server, a small HTTP server that serves the
//! Flashcards app and saves its vocabulary file.

pub mod answers;
pub mod config;
pub mod headers;
pub mod laws;
pub mod path;
pub mod request;
pub mod response;
pub mod saving;
pub mod serial;
pub mod server;
pub mod text;
