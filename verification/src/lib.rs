use vstd::prelude::*;

pub mod clock;
pub mod config;
pub mod digest;
pub mod hex;
pub mod i18n;
pub mod ipc;
pub mod json;
pub mod llm;
pub mod models_cache;
pub mod paths;
pub mod shell;
pub mod state;
pub mod table;
pub mod text;
pub mod text_map;
pub mod toml_doc;
pub mod tool_names;

verus! {

} // verus!
