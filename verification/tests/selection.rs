use miyu::config::app_config::{
    ActiveProviderModelConfig, AppConfig, PlatformModelRoute, ProviderConfig, RealContextModels,
};
use miyu::models_cache::selection::{Catalogue, ProviderModels, Selection};

fn entry(provider: &str, model: &str) -> ActiveProviderModelConfig {
    ActiveProviderModelConfig {
        provider_id: provider.to_string(),
        model: model.to_string(),
    }
}

fn models(id: &str, models: &[(&str, u64)]) -> ProviderModels<u64> {
    ProviderModels {
        id: id.to_string(),
        models: models
            .iter()
            .map(|(name, window)| (name.to_string(), *window))
            .collect(),
    }
}

fn catalogue() -> Vec<ProviderModels<u64>> {
    vec![models("p", &[("a", 111_000), ("b", 222_000)])]
}

fn pool(models: &[&str]) -> AppConfig {
    let mut config = AppConfig::new();
    config.active_provider_models = Some(models.iter().map(|model| entry("p", model)).collect());
    config
}

fn find(data: &[ProviderModels<u64>], provider: &str, model: &str) -> Option<u64> {
    data.iter()
        .find(|entry| entry.id == provider)?
        .models
        .iter()
        .find(|(name, _)| name == model)
        .map(|(_, window)| *window)
}

fn window(catalogue: &Catalogue<u64>, model: &str) -> Option<u64> {
    find(catalogue.loaded.as_ref()?, "p", model)
}

#[test]
fn a_model_added_while_running_makes_the_catalogue_reload() {
    let mut state = Catalogue::new();
    assert!(state.want(&pool(&["a"])), "nothing is loaded yet");
    state.install_pruned(catalogue(), &pool(&["a"]));
    assert_eq!(window(&state, "a"), Some(111_000));
    assert_eq!(window(&state, "b"), None, "b is not configured yet");

    assert!(
        state.want(&pool(&["a", "b"])),
        "the loaded catalogue was pruned before b was added"
    );
    state.install_pruned(catalogue(), &pool(&["a", "b"]));
    assert_eq!(window(&state, "b"), Some(222_000));
    assert!(
        !state.want(&pool(&["a", "b"])),
        "once covered, the same configuration must not reload again"
    );
}

#[test]
fn a_late_refresh_keeps_models_wanted_since_it_started() {
    let mut state = Catalogue::new();
    state.install_pruned(catalogue(), &pool(&["a"]));
    state.want(&pool(&["b"]));
    state.install_pruned(catalogue(), &pool(&["b"]));

    state.install_pruned(catalogue(), &pool(&["a"]));

    assert_eq!(window(&state, "a"), Some(111_000));
    assert_eq!(window(&state, "b"), Some(222_000));
    assert!(!state.want(&pool(&["a"])));
    assert!(!state.want(&pool(&["b"])));
}

#[test]
fn a_full_catalogue_covers_any_configuration() {
    let mut state = Catalogue::new();
    state.install_full(catalogue());
    assert!(!state.want(&pool(&["a", "b", "not-in-the-catalogue"])));
    assert_eq!(window(&state, "b"), Some(222_000));
}

fn with_provider(id: &str, default_model: &str) -> AppConfig {
    let mut config = AppConfig::new();
    config.providers.push(ProviderConfig {
        id: id.to_string(),
        default_model: default_model.to_string(),
    });
    config
}

#[test]
fn compact_cache_retains_only_configured_models() {
    let config = with_provider("provider", "default-model");
    let mut data = vec![
        models("provider", &[("default-model", 128_000), ("unused-model", 64_000)]),
        models("unused-provider", &[("unused-model", 32_000)]),
    ];

    Selection::of(&config).retain(&mut data);

    assert!(!data.iter().any(|entry| entry.id == "unused-provider"));
    assert!(find(&data, "provider", "default-model").is_some());
    assert!(find(&data, "provider", "unused-model").is_none());
}

#[test]
fn compact_cache_retains_models_used_only_by_platform_routes() {
    let mut config = with_provider("provider", "default-model");
    config.qq.text_models.push(entry("provider", "platform-text"));
    config
        .qq
        .non_whitelist_text_models
        .push(entry("provider", "non-whitelist-text"));
    config.qq.real_context = Some(RealContextModels {
        text_models: vec![entry("provider", "context-text")],
        affection_text_models: Vec::new(),
    });
    config.qq.conversations.push(PlatformModelRoute {
        text_models: Some(vec![entry("provider", "route-text")]),
        multimodal_models: Some(vec![entry("provider", "route-vision")]),
    });
    let mut data = vec![models(
        "provider",
        &[
            ("default-model", 128_000),
            ("route-text", 64_000),
            ("route-vision", 96_000),
            ("platform-text", 64_000),
            ("non-whitelist-text", 64_000),
            ("context-text", 64_000),
            ("unused-model", 32_000),
        ],
    )];

    Selection::of(&config).retain(&mut data);

    assert!(find(&data, "provider", "route-text").is_some());
    assert!(find(&data, "provider", "route-vision").is_some());
    assert!(find(&data, "provider", "platform-text").is_some());
    assert!(find(&data, "provider", "non-whitelist-text").is_some());
    assert!(find(&data, "provider", "context-text").is_some());
    assert!(find(&data, "provider", "unused-model").is_none());
}

#[test]
fn compact_cache_retains_same_model_metadata_from_other_providers() {
    let config = with_provider("custom-provider", "custom-model");
    let mut data = vec![
        models("custom-provider", &[("custom-model", 64_000)]),
        models("catalog-provider", &[("custom-model", 128_000)]),
    ];

    Selection::of(&config).retain(&mut data);

    assert!(data.iter().any(|entry| entry.id == "catalog-provider"));
    assert_eq!(
        find(&data, "custom-provider", "custom-model"),
        Some(64_000)
    );
}

#[test]
fn a_selection_covers_what_it_merged() {
    let mut all = Selection::of(&pool(&["a"]));
    let other = Selection::of(&pool(&["b"]));
    assert!(!all.covers(&other));
    all.merge(other.copy());
    assert!(all.covers(&other));
}
