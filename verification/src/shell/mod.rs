//! What is installed in a user's shell.

pub mod bash;
