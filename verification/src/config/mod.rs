//! What is configured: for the machine, and for each persona.

pub mod app_config;
pub mod builtin_plugins;
pub mod feature_catalog;
pub mod persona_manifest;
