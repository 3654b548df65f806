//! The configuration of the machine, as far as decisions depend on it.

use vstd::prelude::*;

verus! {

/// A model of a provider.
#[derive(Debug, PartialEq, Eq)]
pub struct ActiveProviderModelConfig {
    pub provider_id: String,
    pub model: String,
}

#[derive(Debug)]
pub struct ProviderConfig {
    pub id: String,
    pub default_model: String,
}

/// The models for one conversation of a platform.
#[derive(Debug)]
pub struct PlatformModelRoute {
    pub text_models: Option<Vec<ActiveProviderModelConfig>>,
    pub multimodal_models: Option<Vec<ActiveProviderModelConfig>>,
}

/// The models of the plugin that gives conversations their context.
#[derive(Debug)]
pub struct RealContextModels {
    pub text_models: Vec<ActiveProviderModelConfig>,
    pub affection_text_models: Vec<ActiveProviderModelConfig>,
}

/// The models of a messaging platform. A pool that is taken from elsewhere has
/// none of its own.
#[derive(Debug)]
pub struct PlatformModels {
    pub text_models: Vec<ActiveProviderModelConfig>,
    pub multimodal_models: Vec<ActiveProviderModelConfig>,
    pub non_whitelist_text_models: Vec<ActiveProviderModelConfig>,
    pub conversations: Vec<PlatformModelRoute>,
    pub real_context: Option<RealContextModels>,
}

/// What is switched on.
#[derive(Debug, Clone, Copy, PartialEq, Eq, Structural)]
pub struct Switches {
    pub web: bool,
    pub vision: bool,
    pub memory: bool,
    pub skills: bool,
    pub mcp: bool,
    pub memes: bool,
    pub image_generation: bool,
}

/// The configuration of the machine.
#[derive(Debug)]
pub struct AppConfig {
    pub switches: Switches,
    pub providers: Vec<ProviderConfig>,
    pub active_provider_models: Option<Vec<ActiveProviderModelConfig>>,
    pub active_multimodal_provider_models: Option<Vec<ActiveProviderModelConfig>>,
    pub qq: PlatformModels,
}

impl AppConfig {
    /// A configuration with everything switched on, and no model.
    pub fn new() -> (config: Self)
        ensures
            config.switches == (Switches {
                web: true,
                vision: true,
                memory: true,
                skills: true,
                mcp: true,
                memes: true,
                image_generation: true,
            }),
            config.providers@.len() == 0,
            config.active_provider_models is None,
            config.active_multimodal_provider_models is None,
            config.qq.text_models@.len() == 0,
            config.qq.multimodal_models@.len() == 0,
            config.qq.non_whitelist_text_models@.len() == 0,
            config.qq.conversations@.len() == 0,
            config.qq.real_context is None,
    {
        AppConfig {
            switches: Switches {
                web: true,
                vision: true,
                memory: true,
                skills: true,
                mcp: true,
                memes: true,
                image_generation: true,
            },
            providers: Vec::new(),
            active_provider_models: None,
            active_multimodal_provider_models: None,
            qq: PlatformModels {
                text_models: Vec::new(),
                multimodal_models: Vec::new(),
                non_whitelist_text_models: Vec::new(),
                conversations: Vec::new(),
                real_context: None,
            },
        }
    }
}

} // verus!
