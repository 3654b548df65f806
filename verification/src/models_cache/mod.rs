//! What is known of models.

pub mod selection;
