//! The resolver core: messages, cache, in-flight queries and upstreams.

pub mod answer_laws;
pub mod arena;
pub mod dot;
pub mod dot_laws;
pub mod dot_pool;
pub mod handler;
pub mod handler_laws;
pub mod inflight;
pub mod inline_name;
pub mod message;
pub mod cache;
pub mod cache_laws;
pub mod upstream;
pub mod use_laws;
