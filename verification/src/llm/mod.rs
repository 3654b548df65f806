//! Talking to model providers.

pub mod cache_break;
pub mod cache_prefix;
pub mod errors;
