//! A mirroring reverse proxy core: origin resolution, header sanitization,
//! cookie re-scoping, content URL rewriting and banner injection, all as
//! verified functions over plain byte strings. The surrounding HTTP
//! transport lives outside this crate and hands these functions plain values.

pub mod config;
pub mod handlers;
pub mod headers;
pub mod text;
pub mod utils;
