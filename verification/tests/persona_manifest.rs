use miyu::config::app_config::AppConfig;
use miyu::config::builtin_plugins::PLUGIN_IDS;
use miyu::config::persona_manifest::{
    ManifestError, PersonaManifest, RETIRED_PLUGIN_IDS, SKILLS_PLUGIN,
};

#[test]
fn allowlists_parse_and_stay_off_disk_when_all_on() {
    let all = PersonaManifest::all();
    assert!(all.plugin_enabled("mcp"));
    assert!(
        all.plugins.scripts.is_none() && all.plugins.skills.is_none() && all.plugins.mcp.is_none()
    );
    let parsed = PersonaManifest::parse(
        "[plugins]\nscripts = [\"a\"]\nskills = [\"k\"]\nmcp = [\"srv\"]\n",
    )
    .unwrap();
    assert_eq!(parsed.plugins.scripts, Some(vec!["a".to_string()]));
    assert_eq!(parsed.plugins.skills, Some(vec!["k".to_string()]));
    assert_eq!(parsed.plugins.mcp, Some(vec!["srv".to_string()]));
    assert!(!PersonaManifest::core_only().plugin_enabled("mcp"));
    assert!(!all.to_toml().contains("skills = ["));
    assert!(!all.to_toml().contains("mcp = ["));
}

#[test]
fn defaults_are_all_on_and_dev_is_core_only() {
    let all = PersonaManifest::all();
    assert!(all.subsystems.memory && all.subsystems.voice);
    assert!(
        all.plugin_enabled("memes")
            && all.plugin_enabled("scripts")
            && all.plugin_enabled(SKILLS_PLUGIN)
    );
    let dev = PersonaManifest::core_only();
    assert!(!dev.subsystems.memory && !dev.plugin_enabled(SKILLS_PLUGIN));
    assert!(dev.plugin_enabled("platform_outreach"));
    assert!(!dev.plugin_enabled("memes"));
    assert_eq!(PersonaManifest::builtin_for("dev"), dev);
    assert_eq!(PersonaManifest::builtin_for("default"), all);
}

#[test]
fn parses_partial_toml_and_keeps_the_rest_default() {
    let manifest = PersonaManifest::parse(
        "[subsystems]\nmemory = false\n\n[plugins]\nenabled = [\"ledger\", \"memes\"]\n",
    )
    .unwrap();
    assert!(!manifest.subsystems.memory);
    assert!(manifest.subsystems.voice, "没写的子系统保持默认开");
    assert!(!manifest.plugin_enabled(SKILLS_PLUGIN));
    assert!(manifest.plugin_enabled("ledger"));
    assert!(!manifest.plugin_enabled("knowledge_base"));
    let again = PersonaManifest::parse(&manifest.to_toml()).unwrap();
    assert_eq!(again, manifest);
}

#[test]
fn legacy_skills_switch_folds_into_the_plugin_list() {
    let read = |raw: &str| {
        let manifest = PersonaManifest::parse(raw).unwrap();
        let text = manifest.to_toml();
        let value: toml::Value = toml::from_str(&text).unwrap();
        assert!(
            value
                .get("subsystems")
                .and_then(|table| table.get("skills"))
                .is_none(),
            "写出去不能再带 subsystems.skills: {text}"
        );
        assert_eq!(
            PersonaManifest::parse(&text).unwrap(),
            manifest,
            "折算要幂等"
        );
        manifest
    };

    let off = read("[subsystems]\nskills = false\n");
    assert!(!off.plugin_enabled(SKILLS_PLUGIN));
    assert!(off.plugin_enabled("memes") && off.plugin_enabled("scripts"));
    let on = read("[subsystems]\nskills = true\n");
    assert!(on.plugin_enabled(SKILLS_PLUGIN));
    assert_eq!(on.plugins.enabled, None);
    let listed = read("[subsystems]\nskills = true\n\n[plugins]\nenabled = [\"memes\"]\n");
    assert!(listed.plugin_enabled(SKILLS_PLUGIN) && listed.plugin_enabled("memes"));
    assert!(!listed.plugin_enabled("ledger"));
    let listed_off = read("[subsystems]\nskills = false\n\n[plugins]\nenabled = [\"memes\"]\n");
    assert!(!listed_off.plugin_enabled(SKILLS_PLUGIN));
    assert!(read("[plugins]\nenabled = [\"memes\", \"skills\"]\n").plugin_enabled(SKILLS_PLUGIN));
    assert!(!read("[plugins]\nenabled = [\"memes\"]\n").plugin_enabled(SKILLS_PLUGIN));

    let default_persona = read(
        "[subsystems]\nmemory = true\nskills = true\npersona_reminder = true\nvoice = true\nemotion = true\n\n[plugins]\n",
    );
    assert_eq!(default_persona, PersonaManifest::all());
    let quiet = read(
        "[subsystems]\nmemory = false\nskills = false\npersona_reminder = false\nvoice = false\nemotion = false\n\n[plugins]\nenabled = []\nscripts = []\n",
    );
    assert!(!quiet.plugin_enabled(SKILLS_PLUGIN));
    assert_eq!(quiet.plugins.enabled, Some(Vec::new()));
}

#[test]
fn unknown_plugin_ids_are_rejected() {
    let error = PersonaManifest::parse("[plugins]\nenabled = [\"weather\"]\n").unwrap_err();
    assert!(error.message().contains("unknown plugin id"), "{error:?}");
    assert_eq!(
        error.message(),
        format!(
            "unknown plugin id(s) in persona.toml: weather; known: {}",
            PLUGIN_IDS.join(", ")
        )
    );
}

#[test]
fn retired_plugin_ids_are_tolerated() {
    let manifest = PersonaManifest::parse(
        "[plugins]\nenabled = [\"deep_research\", \"package_advisor\", \"diagnostics\", \"memes\"]\n",
    )
    .unwrap();
    assert!(manifest.plugin_enabled("memes"));
    assert!(!manifest.plugin_enabled("archlinux"));
    for id in RETIRED_PLUGIN_IDS {
        assert!(!PLUGIN_IDS.contains(&id), "{id} 不该同时在两张表里");
    }
}

#[test]
fn missing_or_broken_file_falls_back_to_builtin() {
    assert_eq!(
        PersonaManifest::load(None, "dev"),
        PersonaManifest::core_only()
    );
    assert_eq!(
        PersonaManifest::load(Some("this is = not toml ["), "default"),
        PersonaManifest::all()
    );
    assert!(
        !PersonaManifest::load(Some("[subsystems]\nvoice = false\n"), "default")
            .subsystems
            .voice
    );
}

#[test]
fn what_a_file_gets_wrong_is_named() {
    let error = PersonaManifest::parse("this is = not toml [").unwrap_err();
    assert!(matches!(error, ManifestError::NotToml(_)));
    assert!(error.message().contains("TOML parse error at line 1"), "{}", error.message());
    assert_eq!(
        PersonaManifest::parse("[subsystems]\nvoice = 3\n").unwrap_err(),
        ManifestError::WrongType
    );
    assert_eq!(
        PersonaManifest::parse("plugins = 3\n").unwrap_err(),
        ManifestError::WrongType
    );
    assert_eq!(
        PersonaManifest::parse("[plugins]\nmcp = [1]\n").unwrap_err(),
        ManifestError::WrongType
    );
    assert_eq!(
        PersonaManifest::parse("[plugins]\nenabled = [\"a\", \"files\", \"b\"]\n").unwrap_err(),
        ManifestError::UnknownPlugins(vec!["a".to_string(), "b".to_string()])
    );
}

#[test]
fn unknown_keys_are_ignored_when_read() {
    let manifest = PersonaManifest::parse("future = 1\n[subsystems]\ntaste = false\n").unwrap();
    assert_eq!(manifest, PersonaManifest::all());
}

#[test]
fn the_file_is_written_in_order() {
    let mut manifest = PersonaManifest::core_only();
    manifest.plugins.mcp = Some(vec!["it's \"one\"".to_string()]);
    assert_eq!(
        PersonaManifest::parse(&manifest.to_toml()).unwrap(),
        manifest
    );
    let text = PersonaManifest::core_only().to_toml();
    assert!(text.starts_with("[subsystems]\nmemory = false\npersona_reminder = false\n"));
    assert!(text.contains("[plugins]\nenabled = [\"platform_outreach\"]"));
}

#[test]
fn the_path_of_the_file() {
    assert_eq!(
        PersonaManifest::manifest_path("/home/u/persona"),
        "/home/u/persona/persona.toml"
    );
    assert_eq!(PersonaManifest::manifest_path("p/"), "p/persona.toml");
    assert_eq!(PersonaManifest::manifest_path(""), "persona.toml");
}

#[test]
fn the_machine_has_the_last_word() {
    let mut config = AppConfig::new();
    let all = PersonaManifest::all();
    assert!(all.memory_enabled(&config) && all.skills_enabled(&config));
    config.switches.memory = false;
    config.switches.skills = false;
    assert!(!all.memory_enabled(&config) && !all.skills_enabled(&config));
    let core = PersonaManifest::core_only();
    assert!(!core.memory_enabled(&AppConfig::new()) && !core.skills_enabled(&AppConfig::new()));
}

#[test]
fn a_table_may_be_written_as_the_list_of_its_values() {
    let manifest = PersonaManifest::parse(
        "subsystems = [false, true, true, false]\nplugins = [[\"memes\"], [\"a\"]]\n",
    )
    .unwrap();
    assert!(!manifest.subsystems.memory);
    assert!(manifest.subsystems.persona_reminder);
    assert!(!manifest.subsystems.voice);
    assert!(manifest.subsystems.emotion);
    // The second flag is the switch that skills once had.
    assert_eq!(
        manifest.plugins.enabled,
        Some(vec!["memes".to_string(), SKILLS_PLUGIN.to_string()])
    );
    assert_eq!(manifest.plugins.scripts, Some(vec!["a".to_string()]));
    assert_eq!(manifest.plugins.skills, None);
    // What there is no place for is not looked at.
    let long = PersonaManifest::parse(
        "subsystems = [true, true, true, true, true, 7]\nplugins = []\n",
    )
    .unwrap();
    assert_eq!(long, PersonaManifest::all());
    for raw in ["subsystems = [1]\n", "plugins = [\"memes\"]\n", "[[subsystems]]\nvoice = true\n"] {
        assert_eq!(
            PersonaManifest::parse(raw).unwrap_err(),
            ManifestError::WrongType
        );
    }
    // It is written as tables again.
    assert_eq!(
        PersonaManifest::parse(&manifest.to_toml()).unwrap(),
        manifest
    );
}
