//! Where things are.

pub mod search_path;
