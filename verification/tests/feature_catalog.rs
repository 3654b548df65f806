use miyu::config::app_config::AppConfig;
use miyu::config::builtin_plugins::{
    builtin_plugins, descriptor, machine_features, plugin_label, PLUGIN_IDS, TOGGLE_PLUGINS,
};
use miyu::config::feature_catalog::{
    always_on_plugins, apply_machine_switches, apply_selection, catalog, subsystem, CatalogScope,
    FeatureItem, FeatureKind, FeatureSources, SubsystemFlag, SUBSYSTEMS,
};
use miyu::config::persona_manifest::PersonaManifest;
use miyu::i18n::{text_for, Locale};

fn sources() -> FeatureSources {
    FeatureSources {
        voice_available: true,
        persona_reminder_available: true,
        emotion_available: true,
        scripts: vec![
            ("s1".into(), "脚本一".into(), String::new(), false),
            ("b1".into(), "内置一".into(), String::new(), true),
        ],
        skills: vec![
            ("k1".into(), "技能一".into(), "说明一".into(), false),
            ("bk".into(), "内置技能".into(), "内置说明".into(), true),
        ],
        mcp_servers: vec![
            ("m1".into(), "服务器一".into(), "npx server-one".into()),
            ("m2".into(), String::new(), "uvx server-two".into()),
        ],
    }
}

fn table(
    manifest: &PersonaManifest,
    sources: &FeatureSources,
    default_persona: bool,
    scope: CatalogScope,
    config: Option<&AppConfig>,
) -> Vec<FeatureItem> {
    catalog(manifest, sources, default_persona, scope, config, Locale::Zh)
}

fn ids(items: &[FeatureItem], kind: FeatureKind) -> Vec<String> {
    items
        .iter()
        .filter(|item| item.kind == kind)
        .map(|item| item.id.clone())
        .collect()
}

#[test]
fn the_settings_scope_shows_what_onboarding_hides() {
    let manifest = PersonaManifest::all();
    let config = AppConfig::new();
    let guided = table(&manifest, &sources(), true, CatalogScope::Onboarding, None);
    let full = table(
        &manifest,
        &sources(),
        true,
        CatalogScope::Settings,
        Some(&config),
    );
    assert!(ids(&guided, FeatureKind::Machine).is_empty());
    assert_eq!(ids(&full, FeatureKind::Machine), ["web", "vision"]);
    let guided_subs = ids(&guided, FeatureKind::Subsystem);
    assert!(!guided_subs
        .iter()
        .any(|id| id == "memory" || id == "skills"));
    assert!(ids(&full, FeatureKind::Subsystem).contains(&"memory".to_string()));
    assert!(!ids(&guided, FeatureKind::Plugin).contains(&"files".to_string()));
    assert!(ids(&full, FeatureKind::Plugin).contains(&"files".to_string()));
    let memes = full
        .iter()
        .find(|item| item.id == "memes")
        .expect("表情包在表上");
    assert!(memes.settings);
    assert_eq!(memes.machine_on, Some(config.switches.memes));
}

#[test]
fn ticking_a_row_also_opens_the_machine_switch() {
    let mut config = AppConfig::new();
    config.switches.image_generation = false;
    config.switches.memes = false;
    let manifest = PersonaManifest::all();
    let mut items = table(
        &manifest,
        &sources(),
        true,
        CatalogScope::Settings,
        Some(&config),
    );
    for item in &mut items {
        item.on = item.id == "image_generation";
    }
    apply_machine_switches(&mut config, &items);
    assert!(config.switches.image_generation, "勾上的要打开");
    assert!(!config.switches.memes, "没勾的不动——那儿存着密钥和尺寸");
}

#[test]
fn toggle_plugins_are_all_known_ids() {
    for id in TOGGLE_PLUGINS {
        assert!(PLUGIN_IDS.contains(&id), "{id} is not a plugin id");
        assert!(!plugin_label(id).0.is_empty(), "{id} has no label");
    }
    let always: Vec<&str> = always_on_plugins();
    assert_eq!(always.len() + TOGGLE_PLUGINS.len(), PLUGIN_IDS.len());
    assert!(always.contains(&"mcp"));
    assert!(always.contains(&"knowledge_base"));
}

#[test]
fn default_persona_all_on_leaves_allowlists_empty() {
    let mut manifest = PersonaManifest::all();
    let items = table(&manifest, &sources(), true, CatalogScope::Onboarding, None);
    assert!(items.iter().all(|item| item.on));
    apply_selection(&mut manifest, &items, true);
    assert_eq!(manifest, PersonaManifest::all());
}

#[test]
fn default_persona_turning_things_off_writes_explicit_lists() {
    let mut manifest = PersonaManifest::all();
    let mut items = table(&manifest, &sources(), true, CatalogScope::Onboarding, None);
    for item in &mut items {
        if ["voice", "memes", "b1", "k1"].contains(&item.id.as_str()) {
            item.on = false;
        }
    }
    apply_selection(&mut manifest, &items, true);
    assert!(!manifest.subsystems.voice);
    let enabled = manifest.plugins.enabled.clone().unwrap();
    assert!(!enabled.contains(&"memes".to_string()));
    assert!(enabled.contains(&"files".to_string()));
    assert!(enabled.contains(&"mcp".to_string()));
    assert_eq!(manifest.plugins.scripts, Some(vec!["s1".to_string()]));
    assert_eq!(manifest.plugins.skills, Some(vec!["bk".to_string()]));
    assert_eq!(
        table(&manifest, &sources(), true, CatalogScope::Onboarding, None),
        items
    );
}

#[test]
fn custom_persona_builtins_default_off_and_opt_in() {
    let mut manifest = PersonaManifest::all();
    let items = table(&manifest, &sources(), false, CatalogScope::Onboarding, None);
    let by_id = |id: &str| items.iter().find(|item| item.id == id).unwrap().on;
    assert!(by_id("s1") && !by_id("b1") && by_id("k1") && !by_id("bk"));
    apply_selection(&mut manifest, &items, false);
    assert_eq!(manifest.plugins.scripts, None);
    assert_eq!(manifest.plugins.skills, None);
    let mut items = items;
    items.iter_mut().find(|item| item.id == "b1").unwrap().on = true;
    apply_selection(&mut manifest, &items, false);
    assert_eq!(
        manifest.plugins.scripts,
        Some(vec!["s1".to_string(), "b1".to_string()])
    );
    assert_eq!(manifest.plugins.skills, None);
    assert_eq!(
        table(&manifest, &sources(), false, CatalogScope::Onboarding, None),
        items
    );
}

#[test]
fn mcp_servers_get_per_server_toggles_that_write_the_allowlist() {
    let mut manifest = PersonaManifest::all();
    let mut items = table(&manifest, &sources(), true, CatalogScope::Onboarding, None);
    let mcp: Vec<(&str, &str, bool)> = items
        .iter()
        .filter(|item| item.kind == FeatureKind::Mcp)
        .map(|item| (item.id.as_str(), item.name.as_str(), item.on))
        .collect();
    assert_eq!(mcp, [("m1", "服务器一", true), ("m2", "m2", true)]);
    assert_eq!(
        items.last().unwrap().kind,
        FeatureKind::Mcp,
        "MCP 排在最后一格"
    );

    items.iter_mut().find(|item| item.id == "m1").unwrap().on = false;
    apply_selection(&mut manifest, &items, true);
    assert_eq!(manifest.plugins.mcp, Some(vec!["m2".to_string()]));
    assert_eq!(manifest.plugins.scripts, None, "别的白名单不受影响");
    assert_eq!(
        table(&manifest, &sources(), true, CatalogScope::Onboarding, None),
        items
    );

    let custom = table(
        &PersonaManifest::all(),
        &sources(),
        false,
        CatalogScope::Onboarding,
        None,
    );
    assert!(custom
        .iter()
        .filter(|item| item.kind == FeatureKind::Mcp)
        .all(|item| item.on));

    let mut hidden = sources();
    hidden.mcp_servers.clear();
    let items = table(&manifest, &hidden, true, CatalogScope::Onboarding, None);
    assert!(items.iter().all(|item| item.kind != FeatureKind::Mcp));
    apply_selection(&mut manifest, &items, true);
    assert_eq!(manifest.plugins.mcp, Some(vec!["m2".to_string()]));
}

#[test]
fn persona_reminder_and_emotion_toggles_round_trip() {
    let mut manifest = PersonaManifest::all();
    let mut items = table(&manifest, &sources(), true, CatalogScope::Onboarding, None);
    let ids: Vec<&str> = items
        .iter()
        .filter(|item| item.kind == FeatureKind::Subsystem)
        .map(|item| item.id.as_str())
        .collect();
    assert_eq!(ids, ["voice", "persona_reminder", "emotion"]);
    for item in &mut items {
        if item.id == "persona_reminder" || item.id == "emotion" {
            item.on = false;
        }
    }
    apply_selection(&mut manifest, &items, true);
    assert!(!manifest.subsystems.persona_reminder && !manifest.subsystems.emotion);
    assert!(manifest.subsystems.voice, "没动的开关不受影响");
    assert_eq!(
        table(&manifest, &sources(), true, CatalogScope::Onboarding, None),
        items
    );

    let mut hidden = sources();
    hidden.persona_reminder_available = false;
    hidden.emotion_available = false;
    let items = table(&manifest, &hidden, true, CatalogScope::Onboarding, None);
    assert!(items
        .iter()
        .all(|item| item.kind != FeatureKind::Subsystem || item.id == "voice"));
}

#[test]
fn every_catalog_entry_carries_both_languages() {
    let mut missing = Vec::new();
    for plugin in builtin_plugins() {
        if plugin.name_en.trim().is_empty() || plugin.hint_en.trim().is_empty() {
            missing.push(format!("plugin {}", plugin.id));
        }
    }
    for feature in machine_features() {
        if feature.name_en.trim().is_empty() || feature.hint_en.trim().is_empty() {
            missing.push(format!("machine feature {}", feature.id));
        }
    }
    for flag in SUBSYSTEMS {
        let descriptor = flag.descriptor();
        if descriptor.name_en.trim().is_empty() || descriptor.hint_en.trim().is_empty() {
            missing.push(format!("subsystem {}", descriptor.id));
        }
    }
    assert!(missing.is_empty(), "这些条目缺英文名/英文说明: {missing:?}");
}

#[test]
fn the_english_names_are_not_chinese() {
    let chinese = |value: &str| {
        value
            .chars()
            .any(|ch| ('\u{4e00}'..='\u{9fff}').contains(&ch))
    };
    for plugin in builtin_plugins() {
        assert!(
            !chinese(plugin.name_en),
            "{} 的英文名里有中文: {}",
            plugin.id,
            plugin.name_en
        );
    }
    for flag in SUBSYSTEMS {
        let descriptor = flag.descriptor();
        assert!(
            !chinese(descriptor.name_en),
            "{} 的英文名里有中文: {}",
            descriptor.id,
            descriptor.name_en
        );
    }
}

#[test]
fn the_same_entry_renders_in_the_requested_language() {
    let plugin = descriptor("alarm").expect("alarm is a built-in plugin");
    assert_eq!(text_for(Locale::Zh, plugin.name_en, plugin.name_zh), "闹钟");
    assert_eq!(text_for(Locale::En, plugin.name_en, plugin.name_zh), "Alarm");
}

#[test]
fn subsystems_are_found_by_their_ids() {
    assert_eq!(subsystem("emotion"), Some(SubsystemFlag::Emotion));
    assert_eq!(subsystem("memory"), Some(SubsystemFlag::Memory));
    assert_eq!(subsystem("skills"), None);
    let mut subsystems = PersonaManifest::all().subsystems;
    SubsystemFlag::Voice.set(&mut subsystems, false);
    assert!(!SubsystemFlag::Voice.get(&subsystems) && SubsystemFlag::Memory.get(&subsystems));
}

#[test]
fn ticking_a_machine_feature_opens_its_switch_and_nothing_closes() {
    let mut config = AppConfig::new();
    config.switches.web = false;
    let manifest = PersonaManifest::all();
    let mut items = table(
        &manifest,
        &sources(),
        true,
        CatalogScope::Settings,
        Some(&config),
    );
    assert!(!items.iter().find(|item| item.id == "web").unwrap().on);
    for item in &mut items {
        item.on = item.id == "web";
    }
    apply_machine_switches(&mut config, &items);
    assert!(config.switches.web);
    assert!(config.switches.vision && config.switches.mcp && config.switches.skills);
}

#[test]
fn a_plugin_row_says_whether_the_machine_has_it_on() {
    let mut config = AppConfig::new();
    config.switches.mcp = false;
    let manifest = PersonaManifest::core_only();
    let items = table(
        &manifest,
        &sources(),
        true,
        CatalogScope::Settings,
        Some(&config),
    );
    let row = |id: &str| {
        items
            .iter()
            .find(|item| item.kind == FeatureKind::Plugin && item.id == id)
            .unwrap()
    };
    assert_eq!(row("mcp").machine_on, Some(false));
    assert_eq!(row("files").machine_on, Some(true));
    assert!(row("platform_outreach").on && !row("files").on);
}

#[test]
fn the_guided_table_is_the_full_one_with_rows_left_out() {
    let manifest = PersonaManifest::all();
    let config = AppConfig::new();
    let guided = table(&manifest, &sources(), true, CatalogScope::Onboarding, Some(&config));
    let full = table(&manifest, &sources(), true, CatalogScope::Settings, Some(&config));
    let mut rest = full.iter();
    for row in &guided {
        assert!(rest.any(|other| other == row), "{row:?}");
    }
    assert!(guided.len() < full.len());
}
